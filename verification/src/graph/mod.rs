//! Graphs whose nodes are named by caller-chosen keys.
//!
//! A graph numbers its nodes in the order in which their keys are first
//! mentioned, and keeps for each node an optional weight and the list of
//! its outgoing edges. The kind of a graph (undirected, directed, tree,
//! DAG) is a marker in its type, which selects the operations on offer.

pub mod component_laws;
pub mod directed;
pub mod tree;
pub mod walk_laws;

pub use tree::{TreeDP, TreePostorder, TreePreorder, TreeShape};

use crate::fx::{keyed_get, keyed_insert, lawful_key};
use crate::values::{apply1, clone_is_exact, is_function1};
use rustc_hash::FxHasher;
use std::collections::HashMap;
use std::hash::{BuildHasherDefault, Hash};
use std::marker::PhantomData;
use vstd::prelude::*;

verus! {

/// The kinds of graph.
pub trait GraphType {

}

/// The marker of undirected graphs. It stands in the type of a graph only.
#[derive(Debug, Clone, Copy, PartialEq, Eq)]
pub enum Undirected {
    Marker,
}

impl GraphType for Undirected {

}

/// The marker of directed graphs. It stands in the type of a graph only.
#[derive(Debug, Clone, Copy, PartialEq, Eq)]
pub enum Directed {
    Marker,
}

impl GraphType for Directed {

}

/// The marker of trees. It stands in the type of a graph only.
#[derive(Debug, Clone, Copy, PartialEq, Eq)]
pub enum Tree {
    Marker,
}

impl GraphType for Tree {

}

/// The marker of directed acyclic graphs. It stands in the type of a graph only.
#[derive(Debug, Clone, Copy, PartialEq, Eq)]
pub enum Dag {
    Marker,
}

impl GraphType for Dag {

}

#[derive(Debug, Clone, PartialEq, Eq, Hash)]
pub struct Node<NW> {
    pub weight: Option<NW>,
}

/// `PhantomData::clone`.
///
/// Trusted: nothing is claimed of the clone; a marker holds no data.
pub assume_specification<T: core::marker::PointeeSized>[ <PhantomData<T> as Clone>::clone ](
    p: &PhantomData<T>,
) -> (r: PhantomData<T>)
;

#[derive(Debug, Clone)]
pub struct Graph<I, EW, NW, T: GraphType> {
    pub coord_map: HashMap<I, usize, BuildHasherDefault<FxHasher>>,
    pub reverse_map: Vec<I>,
    pub nodes: Vec<Node<NW>>,
    pub adj: Vec<Vec<(usize, Option<EW>)>>,
    _phantom: PhantomData<T>,
}

/// A graph as the contracts see it: the number of each key, the key and the
/// weight of each node, and the edges that leave each node, each with its
/// target and its weight.
#[verifier::reject_recursive_types(I)]
pub struct GraphModel<I, EW, NW> {
    pub ids: Map<I, usize>,
    pub keys: Seq<I>,
    pub weights: Seq<Option<NW>>,
    pub edges: Seq<Seq<(usize, Option<EW>)>>,
}

impl<I, EW, NW> GraphModel<I, EW, NW> {
    /// The number of nodes.
    pub open spec fn len(self) -> nat {
        self.keys.len()
    }

    /// Keys and numbers name each other, every node has a weight slot and
    /// an edge list, and every edge leads to a node.
    pub open spec fn wf(self) -> bool {
        &&& self.keys.len() <= usize::MAX
        &&& self.weights.len() == self.keys.len()
        &&& self.edges.len() == self.keys.len()
        &&& forall|k: I| #[trigger]
            self.ids.contains_key(k) ==> self.ids[k] < self.keys.len() && self.keys[self.ids[k] as int]
                == k
        &&& forall|i: int|
            0 <= i < self.keys.len() ==> self.ids.contains_key(#[trigger] self.keys[i])
                && self.ids[self.keys[i]] == i
        &&& forall|i: int, j: int|
            0 <= i < self.edges.len() && 0 <= j < self.edges[i].len() ==> (#[trigger] self.edges[i][j]).0
                < self.keys.len()
    }

    /// The graph with a node for `key`: a new one, without weight or
    /// edges, where it had none.
    pub open spec fn with_key(self, key: I) -> Self {
        if self.ids.contains_key(key) {
            self
        } else {
            GraphModel {
                ids: self.ids.insert(key, self.keys.len() as usize),
                keys: self.keys.push(key),
                weights: self.weights.push(None),
                edges: self.edges.push(Seq::empty()),
            }
        }
    }

    /// The graph with an edge from `from` to `to`, and with nodes for the
    /// two where it had none.
    pub open spec fn with_edge(self, from: I, to: I, weight: Option<EW>) -> Self {
        let g = self.with_key(from).with_key(to);
        let f = g.ids[from] as int;
        GraphModel { edges: g.edges.update(f, g.edges[f].push((g.ids[to], weight))), ..g }
    }

    /// The graph with the weight of the node `key` set, and with a node
    /// for `key` where it had none.
    pub open spec fn with_weight(self, key: I, weight: NW) -> Self {
        let g = self.with_key(key);
        GraphModel { weights: g.weights.update(g.ids[key] as int, Some(weight)), ..g }
    }

    /// Adding a node keeps a graph well formed.
    pub proof fn lemma_with_key(self, key: I)
        requires
            self.wf(),
            self.keys.len() < usize::MAX,
        ensures
            self.with_key(key).wf(),
            self.with_key(key).ids.contains_key(key),
            self.with_key(key).len() <= self.len() + 1,
            forall|k: I| self.ids.contains_key(k) ==> #[trigger] self.with_key(key).ids.contains_key(k),
    {
        let g = self.with_key(key);
        if !self.ids.contains_key(key) {
            assert forall|i: int| 0 <= i < g.keys.len() implies g.ids.contains_key(
                #[trigger] g.keys[i],
            ) && g.ids[g.keys[i]] == i by {
                if i < self.keys.len() {
                    assert(self.ids.contains_key(self.keys[i]));
                }
            }
            assert forall|i: int, j: int|
                0 <= i < g.edges.len() && 0 <= j < g.edges[i].len() implies (#[trigger] g.edges[i][j]).0
                < g.keys.len() by {
                if i < self.edges.len() {
                    assert(self.edges[i][j].0 < self.keys.len());
                }
            }
        }
    }
}

/// The weights that a vector of nodes holds.
pub open spec fn weights_of<NW>(nodes: Seq<Node<NW>>) -> Seq<Option<NW>> {
    Seq::new(nodes.len(), |i: int| nodes[i].weight)
}

/// The edge lists that a vector of vectors holds.
pub open spec fn edges_of<EW>(adj: Seq<Vec<(usize, Option<EW>)>>) -> Seq<Seq<(usize, Option<EW>)>> {
    Seq::new(adj.len(), |i: int| adj[i]@)
}

impl<I: Clone + Eq + Hash, EW, NW, T: GraphType> Graph<I, EW, NW, T> {
    /// The graph as the contracts see it.
    pub closed spec fn model(&self) -> GraphModel<I, EW, NW> {
        GraphModel {
            ids: self.coord_map@,
            keys: self.reverse_map@,
            weights: weights_of(self.nodes@),
            edges: edges_of(self.adj@),
        }
    }

    /// The nodes, by number.
    pub closed spec fn node_list(&self) -> Seq<Node<NW>> {
        self.nodes@
    }

    /// The weights of the model are the weights of the nodes.
    pub proof fn lemma_node_list(&self)
        ensures
            self.model().weights == weights_of(self.node_list()),
    {
    }

    /// The graph is well formed.
    pub open spec fn wf(&self) -> bool {
        self.model().wf()
    }

    /// The graph without nodes.
    pub fn new() -> (g: Self)
        ensures
            g.wf(),
            g.model().len() == 0,
            g.model().ids == Map::<I, usize>::empty(),
    {
        let g = Graph {
            coord_map: HashMap::<I, usize, BuildHasherDefault<FxHasher>>::default(),
            reverse_map: Vec::<I>::new(),
            nodes: Vec::new(),
            adj: Vec::new(),
            _phantom: PhantomData,
        };
        assert(g.model().weights =~= Seq::empty());
        assert(g.model().edges =~= Seq::empty());
        g
    }

    /// The number of the node `key`, if there is one.
    fn key2id(&self, key: &I) -> (id: Option<usize>)
        requires
            lawful_key::<I>(),
        ensures
            id == if self.model().ids.contains_key(*key) {
                Some(self.model().ids[*key])
            } else {
                None
            },
    {
        match keyed_get(&self.coord_map, key) {
            Some(id) => Some(*id),
            None => None,
        }
    }

    /// The node `key`, if there is one.
    pub fn get_node(&self, key: I) -> (node: Option<&Node<NW>>)
        requires
            lawful_key::<I>(),
        ensures
            node == if self.model().ids.contains_key(key) && self.model().ids[key]
                < self.node_list().len() {
                Some(&self.node_list()[self.model().ids[key] as int])
            } else {
                None
            },
    {
        match self.key2id(&key) {
            Some(id) => {
                if id < self.nodes.len() {
                    Some(&self.nodes[id])
                } else {
                    None
                }
            },
            None => None,
        }
    }

    /// The node `key` for writing, if there is one. What is written to it
    /// becomes the node; nothing else of the graph changes.
    pub fn get_node_mut(&mut self, key: I) -> (node: Option<&mut Node<NW>>)
        requires
            lawful_key::<I>(),
        ensures
            final(self).model().ids == old(self).model().ids,
            final(self).model().keys == old(self).model().keys,
            final(self).model().edges == old(self).model().edges,
            match node {
                Some(n) => {
                    let id = old(self).model().ids[key] as int;
                    &&& old(self).model().ids.contains_key(key)
                    &&& id < old(self).node_list().len()
                    &&& *n == old(self).node_list()[id]
                    &&& final(self).node_list() == old(self).node_list().update(id, *final(n))
                },
                None => {
                    &&& !(old(self).model().ids.contains_key(key) && old(self).model().ids[key]
                        < old(self).node_list().len())
                    &&& final(self).node_list() == old(self).node_list()
                },
            },
    {
        match self.key2id(&key) {
            Some(id) => {
                if id < self.nodes.len() {
                    Some(&mut self.nodes[id])
                } else {
                    None
                }
            },
            None => None,
        }
    }

    /// The number of the node `key`; a node is made for it where there is
    /// none.
    pub fn get_or_create_id(&mut self, key: I) -> (id: usize)
        requires
            lawful_key::<I>(),
            old(self).wf(),
        ensures
            final(self).wf(),
            final(self).model() == old(self).model().with_key(key),
            id == final(self).model().ids[key],
            final(self).model().ids.contains_key(key),
    {
        match self.key2id(&key) {
            Some(id) => id,
            None => {
                let id = self.reverse_map.len();
                let ghost before = self.model();
                let copy = key.clone();
                keyed_insert(&mut self.coord_map, copy, id);
                self.reverse_map.push(key);
                self.nodes.push(Node { weight: None });
                self.adj.push(Vec::new());
                let grown = self.reverse_map.len();
                proof {
                    assert(id + 1 == grown);
                    assert(self.model().weights =~= before.weights.push(None));
                    assert(self.model().edges =~= before.edges.push(Seq::empty()));
                    before.lemma_with_key(key);
                }
                id
            },
        }
    }

    /// Adds an edge from `from` to `to`; nodes are made for the two where
    /// there are none.
    pub fn add_edge(&mut self, from: I, to: I, weight: Option<EW>)
        requires
            lawful_key::<I>(),
            old(self).wf(),
        ensures
            final(self).wf(),
            final(self).model() == old(self).model().with_edge(from, to, weight),
    {
        let ghost g0 = self.model();
        let from_id = self.get_or_create_id(from);
        let ghost g1 = self.model();
        let to_id = self.get_or_create_id(to);
        let ghost g2 = self.model();
        proof {
            if g0.ids.contains_key(from) {
            } else {
                assert(g1.ids[from] == g0.keys.len());
            }
            assert(g2.ids.contains_key(from));
            assert(g2.ids[from] == from_id);
        }
        let ghost before = self.adj@;
        assert(before[from_id as int]@ == g2.edges[from_id as int]);
        self.adj[from_id].push((to_id, weight));
        proof {
            assert(self.model().edges =~= g2.edges.update(
                from_id as int,
                g2.edges[from_id as int].push((to_id, weight)),
            ));
            let r = g0.with_edge(from, to, weight);
            assert(self.model().ids == r.ids);
            assert(self.model().keys == r.keys);
            assert(self.model().weights == r.weights);
            assert forall|i: int, j: int|
                0 <= i < self.model().edges.len() && 0 <= j < self.model().edges[i].len() implies (#[trigger] self.model().edges[i][j]).0
                < self.model().keys.len() by {
                if i == from_id && j == g2.edges[from_id as int].len() {
                } else {
                    assert(self.model().edges[i][j] == g2.edges[i][j]);
                }
            }
        }
    }

    /// Sets the weight of the node `id`; a node is made for it where there
    /// is none.
    pub fn add_weight_to_node(&mut self, id: I, weight: NW)
        requires
            lawful_key::<I>(),
            old(self).wf(),
        ensures
            final(self).wf(),
            final(self).model() == old(self).model().with_weight(id, weight),
    {
        let node_id = self.get_or_create_id(id);
        let ghost g1 = self.model();
        self.nodes[node_id].weight = Some(weight);
        proof {
            assert(self.model().weights =~= g1.weights.update(node_id as int, Some(weight)));
        }
    }

    /// The weight of the node `id`, if there is such a node and it has one.
    pub fn get_node_weight(&self, id: &I) -> (weight: Option<&NW>)
        requires
            lawful_key::<I>(),
            self.wf(),
        ensures
            match weight {
                Some(w) => self.model().ids.contains_key(*id) && self.model().weights[self.model().ids[*id] as int]
                    == Some(*w),
                None => !self.model().ids.contains_key(*id) || self.model().weights[self.model().ids[*id] as int]
                    is None,
            },
    {
        match self.key2id(id) {
            Some(node_id) => {
                assert(self.model().weights[node_id as int] == self.nodes@[node_id as int].weight);
                self.nodes[node_id].weight.as_ref()
            },
            None => None,
        }
    }
}

/// The value of row `i`, column `j` of `input` can be a node.
pub open spec fn grid_open<V, F: Fn(&V) -> bool>(input: Seq<Vec<V>>, is_connectable: F, i: int, j: int) -> bool {
    apply1(is_connectable, &input[i]@[j])
}

/// The graph after the cell in row `i`, column `j` of a grid of `h` rows and
/// `w` columns was looked at: where the cell is open, it has become a node
/// with the cell's value as its weight, joined by an edge of weight one to
/// each open cell above it, below it, left of it and right of it, in that
/// order.
pub open spec fn grid_step<V, F: Fn(&V) -> bool>(
    g: GraphModel<(usize, usize), usize, V>,
    input: Seq<Vec<V>>,
    is_connectable: F,
    h: int,
    w: int,
    i: int,
    j: int,
) -> GraphModel<(usize, usize), usize, V> {
    if !grid_open(input, is_connectable, i, j) {
        g
    } else {
        let here = (i as usize, j as usize);
        let g0 = g.with_weight(here, input[i]@[j]);
        let g1 = if i > 0 && grid_open(input, is_connectable, i - 1, j) {
            g0.with_edge(here, ((i - 1) as usize, j as usize), Some(1usize))
        } else {
            g0
        };
        let g2 = if i + 1 < h && grid_open(input, is_connectable, i + 1, j) {
            g1.with_edge(here, ((i + 1) as usize, j as usize), Some(1usize))
        } else {
            g1
        };
        let g3 = if j > 0 && grid_open(input, is_connectable, i, j - 1) {
            g2.with_edge(here, (i as usize, (j - 1) as usize), Some(1usize))
        } else {
            g2
        };
        if j + 1 < w && grid_open(input, is_connectable, i, j + 1) {
            g3.with_edge(here, (i as usize, (j + 1) as usize), Some(1usize))
        } else {
            g3
        }
    }
}

/// The graph after the first `count` cells of the grid, row by row, were
/// looked at.
pub open spec fn grid_after<V, F: Fn(&V) -> bool>(
    input: Seq<Vec<V>>,
    is_connectable: F,
    h: int,
    w: int,
    count: int,
) -> GraphModel<(usize, usize), usize, V>
    decreases count,
{
    if count <= 0 || w <= 0 {
        GraphModel { ids: Map::empty(), keys: Seq::empty(), weights: Seq::empty(), edges: Seq::empty() }
    } else {
        grid_step(
            grid_after(input, is_connectable, h, w, count - 1),
            input,
            is_connectable,
            h,
            w,
            (count - 1) / w,
            (count - 1) % w,
        )
    }
}

/// The graph of a grid: every cell that `is_connectable` accepts is a node,
/// named by its row and column and weighted by its value, with an edge of
/// weight one to each accepted cell next to it.
///
/// The grid must have a first row, and no row may be shorter than the
/// first.
#[verifier::rlimit(60)]
pub fn gen_grid_graph<V, F, T>(input: Vec<Vec<V>>, is_connectable: F) -> (graph: Graph<
    (usize, usize),
    usize,
    V,
    T,
>) where V: Clone, F: Fn(&V) -> bool, T: GraphType
    requires
        lawful_key::<(usize, usize)>(),
        clone_is_exact::<V>(),
        is_function1(is_connectable),
        input@.len() > 0,
        forall|i: int| 0 <= i < input@.len() ==> (#[trigger] input@[i])@.len() >= input@[0]@.len(),
    ensures
        graph.wf(),
        graph.model() == grid_after(
            input@,
            is_connectable,
            input@.len() as int,
            input@[0]@.len() as int,
            (input@.len() * input@[0]@.len()) as int,
        ),
{
    let h = input.len();
    let w = input[0].len();
    let mut graph: Graph<(usize, usize), usize, V, T> = Graph::new();
    assert(graph.model() == grid_after(input@, is_connectable, h as int, w as int, 0)) by {
        assert(graph.model().keys =~= Seq::empty());
        assert(graph.model().weights =~= Seq::empty());
        assert(graph.model().edges =~= Seq::empty());
    }
    let mut i: usize = 0;
    while i < h
        invariant
            lawful_key::<(usize, usize)>(),
            clone_is_exact::<V>(),
            is_function1(is_connectable),
            h == input@.len(),
            w == input@[0]@.len(),
            h > 0,
            forall|k: int| 0 <= k < input@.len() ==> (#[trigger] input@[k])@.len() >= w,
            i <= h,
            graph.wf(),
            graph.model() == grid_after(input@, is_connectable, h as int, w as int, i * w),
        decreases h - i,
    {
        let mut j: usize = 0;
        while j < w
            invariant
                lawful_key::<(usize, usize)>(),
                clone_is_exact::<V>(),
                is_function1(is_connectable),
                h == input@.len(),
                w == input@[0]@.len(),
                forall|k: int| 0 <= k < input@.len() ==> (#[trigger] input@[k])@.len() >= w,
                    i < h,
                j <= w,
                graph.wf(),
                graph.model() == grid_after(input@, is_connectable, h as int, w as int, i * w + j),
            decreases w - j,
        {
            let ghost count = i * w + j;
            let ghost g = graph.model();
            proof {
                assert((i * w + j) / (w as int) == i && (i * w + j) % (w as int) == j) by {
                    vstd::arithmetic::div_mod::lemma_fundamental_div_mod_converse(
                        i * w + j,
                        w as int,
                        i as int,
                        j as int,
                    );
                }
            }
            if is_connectable(&input[i][j]) {
                graph.add_weight_to_node((i, j), input[i][j].clone());
                if i > 0 && is_connectable(&input[i - 1][j]) {
                    graph.add_edge((i, j), (i - 1, j), Some(1));
                }
                if i + 1 < h && is_connectable(&input[i + 1][j]) {
                    graph.add_edge((i, j), (i + 1, j), Some(1));
                }
                if j > 0 && is_connectable(&input[i][j - 1]) {
                    graph.add_edge((i, j), (i, j - 1), Some(1));
                }
                if j + 1 < w && is_connectable(&input[i][j + 1]) {
                    graph.add_edge((i, j), (i, j + 1), Some(1));
                }
            }
            assert(graph.model() == grid_step(
                g,
                input@,
                is_connectable,
                h as int,
                w as int,
                i as int,
                j as int,
            ));
            assert(i * w + (j + 1) == count + 1);
            j += 1;
        }
        assert(i * w + w == (i + 1) * w) by (nonlinear_arith);
        i += 1;
    }
    graph
}

} // verus!
