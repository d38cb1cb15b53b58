//! Bucket-ranked DAG dynamic programming.
//!
//! The caller describes a problem by three rules: the rank of a state, the
//! states it depends on, and how its value follows from theirs. The engine
//! discovers the states below the given roots, orders them by rank and
//! evaluates each exactly once, dependencies first.

use super::discovery::{
    is_schedule, lemma_neighbour_is_earlier, plan_graph, ranks_fall, reach_set, reachable,
    records_neighbours, states_of,
};
use crate::fx::{fx_get, fx_insert, lawful_key};
use crate::values::clone_is_exact;
use rustc_hash::FxHashMap;
use std::hash::Hash;
use vstd::prelude::*;

verus! {

/// The rules of one DAG problem.
///
/// `rank` orders the states: every dependency of a state ranks strictly
/// lower than the state itself. `neighbors` lists the states that the value
/// of a state depends on. `combine` gives the value of a state from the
/// values of its dependencies, in the order in which `neighbors` lists them.
pub trait DagDPRules {
    type State: Clone + Eq + Hash;

    type Value: Clone;

    type Ctx;

    fn rank(ctx: &Self::Ctx, s: &Self::State) -> usize;

    fn neighbors(ctx: &Self::Ctx, s: &Self::State) -> Vec<Self::State>;

    fn combine(ctx: &Self::Ctx, s: &Self::State, child_vals: &[Self::Value]) -> Self::Value;
}

/// Each rule of `D` is a function: what it returns is fixed by what it is
/// given.
pub open spec fn dag_rules_are_functions<D: DagDPRules>(ctx: &D::Ctx) -> bool {
    &&& forall|s: D::State, a: usize, b: usize|
        #[trigger] call_ensures(D::rank, (ctx, &s), a) && #[trigger] call_ensures(
            D::rank,
            (ctx, &s),
            b,
        ) ==> a == b
    &&& forall|s: D::State, a: Vec<D::State>, b: Vec<D::State>|
        #[trigger] call_ensures(D::neighbors, (ctx, &s), a) && #[trigger] call_ensures(
            D::neighbors,
            (ctx, &s),
            b,
        ) ==> a@ == b@
    &&& forall|s: D::State, x: &[D::Value], y: &[D::Value], a: D::Value, b: D::Value|
        #[trigger] call_ensures(D::combine, (ctx, &s, x), a) && #[trigger] call_ensures(
            D::combine,
            (ctx, &s, y),
            b,
        ) && x@ == y@ ==> a == b
}

/// The rank function of the problem `D` under `ctx`.
pub open spec fn dag_rank<D: DagDPRules>(ctx: &D::Ctx) -> spec_fn(D::State) -> nat {
    |s: D::State| (choose|r: usize| call_ensures(D::rank, (ctx, &s), r)) as nat
}

/// The neighbour function of the problem `D` under `ctx`.
pub open spec fn dag_next<D: DagDPRules>(ctx: &D::Ctx) -> spec_fn(D::State) -> Seq<D::State> {
    |s: D::State| (choose|ns: Vec<D::State>| call_ensures(D::neighbors, (ctx, &s), ns))@
}

/// `combine` may return `v` for `s` when it is given the values `vals`.
pub open spec fn dag_may_combine<D: DagDPRules>(
    ctx: &D::Ctx,
    s: D::State,
    vals: Seq<D::Value>,
    v: D::Value,
) -> bool {
    exists|x: &[D::Value]| x@ == vals && #[trigger] call_ensures(D::combine, (ctx, &s, x), v)
}

/// What the rule of `s` makes of the values `vals` of its dependencies.
pub open spec fn dag_combine<D: DagDPRules>(ctx: &D::Ctx, s: D::State, vals: Seq<D::Value>) -> D::Value {
    choose|v: D::Value| dag_may_combine::<D>(ctx, s, vals, v)
}

/// The value of `s`: its rule applied to the values of its dependencies.
/// The recursion follows the rank downwards.
pub open spec fn dag_value<D: DagDPRules>(ctx: &D::Ctx, s: D::State) -> D::Value
    decreases dag_rank::<D>(ctx)(s), dag_next::<D>(ctx)(s).len() + 1,
{
    dag_combine::<D>(ctx, s, dag_child_values::<D>(ctx, s, dag_next::<D>(ctx)(s).len()))
}

/// The values of the first `n` dependencies of `s`, in order.
pub open spec fn dag_child_values<D: DagDPRules>(ctx: &D::Ctx, s: D::State, n: nat) -> Seq<
    D::Value,
>
    decreases dag_rank::<D>(ctx)(s), n,
{
    if n == 0 || n > dag_next::<D>(ctx)(s).len() {
        Seq::empty()
    } else {
        let c = dag_next::<D>(ctx)(s)[n - 1];
        let v = if dag_rank::<D>(ctx)(c) < dag_rank::<D>(ctx)(s) {
            dag_value::<D>(ctx, c)
        } else {
            arbitrary()
        };
        dag_child_values::<D>(ctx, s, (n - 1) as nat).push(v)
    }
}

pub struct Engine;

impl Engine {
    /// Evaluates every state that `roots` depend on, directly or not, and
    /// returns the table of their values.
    ///
    /// The table binds exactly the states reachable from `roots`, each to
    /// the value that its rule gives from the values of its dependencies.
    pub fn solve<D: DagDPRules>(ctx: &D::Ctx, roots: Vec<D::State>) -> (val: FxHashMap<
        D::State,
        D::Value,
    >)
        requires
            lawful_key::<D::State>(),
            clone_is_exact::<D::Value>(),
            dag_rules_are_functions::<D>(ctx),
            reach_set(dag_next::<D>(ctx), roots@).finite(),
            ranks_fall(dag_next::<D>(ctx), dag_rank::<D>(ctx), roots@),
        ensures
            forall|s: D::State| val@.contains_key(s) <==> reachable(dag_next::<D>(ctx), roots@, s),
            forall|s: D::State| val@.contains_key(s) ==> val@[s] == dag_value::<D>(ctx, s),
    {
        let ghost next = dag_next::<D>(ctx);
        let ghost rank = dag_rank::<D>(ctx);
        let ghost roots0 = roots@;
        let (order, adj) = plan_graph(ctx, roots, D::rank, D::neighbors, Ghost(rank), Ghost(next));
        let mut val: FxHashMap<D::State, D::Value> = FxHashMap::default();
        let mut k: usize = 0;
        while k < order.len()
            invariant
                lawful_key::<D::State>(),
                clone_is_exact::<D::Value>(),
                dag_rules_are_functions::<D>(ctx),
                next == dag_next::<D>(ctx),
                rank == dag_rank::<D>(ctx),
                is_schedule(next, rank, roots0, order@),
                records_neighbours(next, roots0, adj@),
                ranks_fall(next, rank, roots0),
                k <= order.len(),
                forall|s: D::State|
                    val@.contains_key(s) <==> exists|m: int|
                        0 <= m < k && (#[trigger] order@[m]).1 == s,
                forall|s: D::State| val@.contains_key(s) ==> val@[s] == dag_value::<D>(ctx, s),
            decreases order.len() - k,
        {
            let s = &order[k].1;
            assert(states_of(order@)[k as int] == *s);
            assert(states_of(order@).contains(*s));
            assert(reachable(next, roots0, *s));
            let found = fx_get(&adj, s);
            assert(adj@.contains_key(*s));
            let childs = found.unwrap();
            assert(childs@ == next(*s));
            let mut child_vals: Vec<D::Value> = Vec::new();
            let mut j: usize = 0;
            while j < childs.len()
                invariant
                    lawful_key::<D::State>(),
                    clone_is_exact::<D::Value>(),
                    next == dag_next::<D>(ctx),
                    rank == dag_rank::<D>(ctx),
                    is_schedule(next, rank, roots0, order@),
                    ranks_fall(next, rank, roots0),
                    k < order.len(),
                    *s == order@[k as int].1,
                    reachable(next, roots0, *s),
                    childs@ == next(*s),
                    j <= childs.len(),
                    child_vals@ == dag_child_values::<D>(ctx, *s, j as nat),
                    forall|t: D::State|
                        val@.contains_key(t) <==> exists|m: int|
                            0 <= m < k && (#[trigger] order@[m]).1 == t,
                    forall|t: D::State| val@.contains_key(t) ==> val@[t] == dag_value::<D>(ctx, t),
                decreases childs.len() - j,
            {
                let c = &childs[j];
                proof {
                    assert(next(*s).contains(*c));
                    assert(rank(*c) < rank(*s));
                    lemma_neighbour_is_earlier(next, rank, roots0, order@, k as int, *c);
                }
                let got = fx_get(&val, c);
                let v = got.unwrap().clone();
                assert(v == val@[*c]);
                assert(v == dag_value::<D>(ctx, *c));
                child_vals.push(v);
                assert(next(*s)[j as int] == *c);
                assert(dag_child_values::<D>(ctx, *s, (j + 1) as nat) == dag_child_values::<D>(
                    ctx,
                    *s,
                    j as nat,
                ).push(v));
                j += 1;
            }
            let v = D::combine(ctx, s, child_vals.as_slice());
            proof {
                let vals = dag_child_values::<D>(ctx, *s, next(*s).len());
                assert(dag_may_combine::<D>(ctx, *s, vals, v));
                let w = dag_combine::<D>(ctx, *s, vals);
                assert(dag_may_combine::<D>(ctx, *s, vals, w));
            }
            assert(v == dag_value::<D>(ctx, *s));
            let key = s.clone();
            let ghost before = val@;
            fx_insert(&mut val, key, v);
            proof {
                assert forall|t: D::State| val@.contains_key(t) <==> exists|m: int|
                    0 <= m < k + 1 && (#[trigger] order@[m]).1 == t by {
                    if val@.contains_key(t) {
                        if t == *s {
                            assert(order@[k as int].1 == t);
                        } else {
                            assert(before.contains_key(t));
                            let m = choose|m: int| 0 <= m < k && (#[trigger] order@[m]).1 == t;
                            assert(0 <= m < k + 1 && order@[m].1 == t);
                        }
                    }
                    if exists|m: int| 0 <= m < k + 1 && (#[trigger] order@[m]).1 == t {
                        let m = choose|m: int| 0 <= m < k + 1 && (#[trigger] order@[m]).1 == t;
                        if m < k {
                            assert(before.contains_key(t));
                        }
                    }
                }
            }
            k += 1;
        }
        proof {
            assert forall|s: D::State| val@.contains_key(s) <==> reachable(next, roots0, s) by {
                if val@.contains_key(s) {
                    let m = choose|m: int| 0 <= m < k && (#[trigger] order@[m]).1 == s;
                    assert(states_of(order@)[m] == s);
                    assert(states_of(order@).contains(s));
                }
                if reachable(next, roots0, s) {
                    assert(states_of(order@).contains(s));
                    let m = choose|m: int|
                        0 <= m < states_of(order@).len() && states_of(order@)[m] == s;
                    assert(order@[m].1 == s);
                }
            }
        }
        val
    }
}

} // verus!
