//! Pull-style DAG dynamic programming with a reusable plan.
//!
//! Discovery and scheduling are done once and kept as a `Plan`; evaluation
//! walks the plan and computes each state from the values of its children,
//! which the plan guarantees to be there already.

use super::discovery::{
    is_schedule, lemma_neighbour_is_earlier, plan_graph, ranks_fall, reach_set, reachable,
    records_neighbours, states_of,
};
use crate::fx::{fx_get, fx_insert, lawful_key};
use rustc_hash::FxHashMap;
use std::hash::Hash;
use vstd::prelude::*;

verus! {

/// A child state together with its value, both borrowed.
pub struct ChildRef<'a, S, V> {
    pub state: &'a S,
    pub value: &'a V,
}

/// The rules of one pull-style problem.
///
/// `rank` orders the states: every child of a state ranks strictly lower
/// than the state itself. `neighbors` lists the children of a state.
/// `base` gives the value that a state has outright, if it has one; a
/// problem that does not write its own `base` has no such state.
/// `combine` gives the value of any other state from its children and their
/// values, which it receives in the order in which `neighbors` lists them.
pub trait PullDPRules {
    type State: Clone + Eq + Hash;

    type Value: Clone;

    type Ctx;

    fn rank(ctx: &Self::Ctx, s: &Self::State) -> usize;

    fn neighbors(ctx: &Self::Ctx, s: &Self::State) -> Vec<Self::State>;

    fn combine<'a, I>(ctx: &Self::Ctx, s: &Self::State, childs: I) -> Self::Value where
        I: IntoIterator<Item = ChildRef<'a, Self::State, Self::Value>>,
        Self::State: 'a,
        Self::Value: 'a,
    ;

    fn base(_ctx: &Self::Ctx, _s: &Self::State) -> (b: Option<Self::Value>)
        default_ensures
            b is None,
    {
        None
    }
}

/// The states and values that a list of child references points at.
pub open spec fn child_pairs<S, V>(childs: Seq<ChildRef<'_, S, V>>) -> Seq<(S, V)> {
    childs.map_values(|c: ChildRef<'_, S, V>| (*c.state, *c.value))
}

/// `combine` may return `v` for `s` when it is given the children `childs`
/// as a vector of references.
pub open spec fn pull_may_combine<D: PullDPRules>(
    ctx: &D::Ctx,
    s: D::State,
    childs: Seq<(D::State, D::Value)>,
    v: D::Value,
) -> bool {
    exists|refs: Vec<ChildRef<'_, D::State, D::Value>>|
        child_pairs(refs@) == childs && #[trigger] call_ensures(
            D::combine::<Vec<ChildRef<'_, D::State, D::Value>>>,
            (ctx, &s, refs),
            v,
        )
}

/// Each rule of `D` is a function: what it returns is fixed by what it is
/// given.
pub open spec fn pull_rules_are_functions<D: PullDPRules>(ctx: &D::Ctx) -> bool {
    &&& forall|s: D::State, a: usize, b: usize|
        #[trigger] call_ensures(D::rank, (ctx, &s), a) && #[trigger] call_ensures(
            D::rank,
            (ctx, &s),
            b,
        ) ==> a == b
    &&& forall|s: D::State, a: Vec<D::State>, b: Vec<D::State>|
        #[trigger] call_ensures(D::neighbors, (ctx, &s), a) && #[trigger] call_ensures(
            D::neighbors,
            (ctx, &s),
            b,
        ) ==> a@ == b@
    &&& forall|s: D::State, a: Option<D::Value>, b: Option<D::Value>|
        #[trigger] call_ensures(D::base, (ctx, &s), a) && #[trigger] call_ensures(
            D::base,
            (ctx, &s),
            b,
        ) ==> a == b
    &&& forall|s: D::State, childs: Seq<(D::State, D::Value)>, a: D::Value, b: D::Value|
        #[trigger] pull_may_combine::<D>(ctx, s, childs, a) && #[trigger] pull_may_combine::<D>(
            ctx,
            s,
            childs,
            b,
        ) ==> a == b
}

/// The rank function of the problem `D` under `ctx`.
pub open spec fn pull_rank<D: PullDPRules>(ctx: &D::Ctx) -> spec_fn(D::State) -> nat {
    |s: D::State| (choose|r: usize| call_ensures(D::rank, (ctx, &s), r)) as nat
}

/// The neighbour function of the problem `D` under `ctx`.
pub open spec fn pull_next<D: PullDPRules>(ctx: &D::Ctx) -> spec_fn(D::State) -> Seq<D::State> {
    |s: D::State| (choose|ns: Vec<D::State>| call_ensures(D::neighbors, (ctx, &s), ns))@
}

/// The value that `s` has outright, if it has one.
pub open spec fn pull_base<D: PullDPRules>(ctx: &D::Ctx, s: D::State) -> Option<D::Value> {
    choose|b: Option<D::Value>| call_ensures(D::base, (ctx, &s), b)
}

/// What the rule of `s` makes of its children and their values.
pub open spec fn pull_combine<D: PullDPRules>(
    ctx: &D::Ctx,
    s: D::State,
    childs: Seq<(D::State, D::Value)>,
) -> D::Value {
    choose|v: D::Value| pull_may_combine::<D>(ctx, s, childs, v)
}

/// The value of `s`: its base value where it has one, else its rule applied
/// to its children and their values. The recursion follows the rank
/// downwards.
pub open spec fn pull_value<D: PullDPRules>(ctx: &D::Ctx, s: D::State) -> D::Value
    decreases pull_rank::<D>(ctx)(s), pull_next::<D>(ctx)(s).len() + 1,
{
    match pull_base::<D>(ctx, s) {
        Some(b) => b,
        None => pull_combine::<D>(
            ctx,
            s,
            pull_children::<D>(ctx, s, pull_next::<D>(ctx)(s).len()),
        ),
    }
}

/// The first `n` children of `s` with their values, in order.
pub open spec fn pull_children<D: PullDPRules>(ctx: &D::Ctx, s: D::State, n: nat) -> Seq<
    (D::State, D::Value),
>
    decreases pull_rank::<D>(ctx)(s), n,
{
    if n == 0 || n > pull_next::<D>(ctx)(s).len() {
        Seq::empty()
    } else {
        let c = pull_next::<D>(ctx)(s)[n - 1];
        let v = if pull_rank::<D>(ctx)(c) < pull_rank::<D>(ctx)(s) {
            pull_value::<D>(ctx, c)
        } else {
            arbitrary()
        };
        pull_children::<D>(ctx, s, (n - 1) as nat).push((c, v))
    }
}

/// The outcome of discovery, kept for any number of evaluations: the states
/// in evaluation order, and the children of each.
#[derive(Debug, Clone)]
pub struct Plan<S: Eq + Hash + Clone> {
    order: Vec<(usize, S)>,
    adj: FxHashMap<S, Vec<S>>,
}

impl<S: Eq + Hash + Clone> Plan<S> {
    /// The planned states with their ranks, in evaluation order.
    pub closed spec fn order(&self) -> Seq<(usize, S)> {
        self.order@
    }

    /// The children recorded for each planned state.
    pub closed spec fn children(&self) -> Map<S, Vec<S>> {
        self.adj@
    }
}

/// `plan` is a plan for the problem `D` under `ctx` from `roots`: it
/// schedules exactly the states below `roots`, children before parents, and
/// records the children of each.
pub open spec fn plan_covers<D: PullDPRules>(
    plan: &Plan<D::State>,
    ctx: &D::Ctx,
    roots: Seq<D::State>,
) -> bool {
    &&& is_schedule(pull_next::<D>(ctx), pull_rank::<D>(ctx), roots, plan.order())
    &&& records_neighbours(pull_next::<D>(ctx), roots, plan.children())
    &&& ranks_fall(pull_next::<D>(ctx), pull_rank::<D>(ctx), roots)
    &&& pull_rules_are_functions::<D>(ctx)
}

pub struct PullDpEngine;

impl PullDpEngine {
    /// Discovers the states below `roots` and plans their evaluation.
    pub fn prepare<D: PullDPRules>(ctx: &D::Ctx, roots: Vec<D::State>) -> (plan: Plan<D::State>)
        requires
            lawful_key::<D::State>(),
            pull_rules_are_functions::<D>(ctx),
            reach_set(pull_next::<D>(ctx), roots@).finite(),
            ranks_fall(pull_next::<D>(ctx), pull_rank::<D>(ctx), roots@),
        ensures
            plan_covers::<D>(&plan, ctx, roots@),
    {
        let (order, adj) = plan_graph(
            ctx,
            roots,
            D::rank,
            D::neighbors,
            Ghost(pull_rank::<D>(ctx)),
            Ghost(pull_next::<D>(ctx)),
        );
        Plan { order, adj }
    }

    /// Evaluates a prepared plan: the table binds exactly the planned
    /// states, each to its value.
    pub fn solve_with_plan<D: PullDPRules>(ctx: &D::Ctx, plan: &Plan<D::State>) -> (val: FxHashMap<
        D::State,
        D::Value,
    >)
        requires
            lawful_key::<D::State>(),
            exists|roots: Seq<D::State>| #[trigger] plan_covers::<D>(plan, ctx, roots),
        ensures
            forall|s: D::State| val@.contains_key(s) <==> states_of(plan.order()).contains(s),
            forall|s: D::State| val@.contains_key(s) ==> val@[s] == pull_value::<D>(ctx, s),
    {
        let ghost next = pull_next::<D>(ctx);
        let ghost rank = pull_rank::<D>(ctx);
        let ghost roots0 = choose|roots: Seq<D::State>| #[trigger]
            plan_covers::<D>(plan, ctx, roots);
        let order = &plan.order;
        let adj = &plan.adj;
        let mut val: FxHashMap<D::State, D::Value> = FxHashMap::default();
        let mut k: usize = 0;
        while k < order.len()
            invariant
                lawful_key::<D::State>(),
                pull_rules_are_functions::<D>(ctx),
                next == pull_next::<D>(ctx),
                rank == pull_rank::<D>(ctx),
                is_schedule(next, rank, roots0, order@),
                records_neighbours(next, roots0, adj@),
                ranks_fall(next, rank, roots0),
                k <= order.len(),
                forall|s: D::State|
                    val@.contains_key(s) <==> exists|m: int|
                        0 <= m < k && (#[trigger] order@[m]).1 == s,
                forall|s: D::State| val@.contains_key(s) ==> val@[s] == pull_value::<D>(ctx, s),
            decreases order.len() - k,
        {
            let s = &order[k].1;
            assert(states_of(order@)[k as int] == *s);
            assert(states_of(order@).contains(*s));
            assert(reachable(next, roots0, *s));
            let v = match D::base(ctx, s) {
                Some(b) => b,
                None => {
                    let found = fx_get(adj, s);
                    assert(adj@.contains_key(*s));
                    let childs = found.unwrap();
                    assert(childs@ == next(*s));
                    let mut refs: Vec<ChildRef<'_, D::State, D::Value>> = Vec::new();
                    let mut j: usize = 0;
                    while j < childs.len()
                        invariant
                            lawful_key::<D::State>(),
                            next == pull_next::<D>(ctx),
                            rank == pull_rank::<D>(ctx),
                            is_schedule(next, rank, roots0, order@),
                            ranks_fall(next, rank, roots0),
                            k < order.len(),
                            *s == order@[k as int].1,
                            reachable(next, roots0, *s),
                            childs@ == next(*s),
                            j <= childs.len(),
                            refs@.len() == j,
                            forall|i: int|
                                0 <= i < j ==> *(#[trigger] refs@[i]).state == childs@[i],
                            child_pairs(refs@) == pull_children::<D>(ctx, *s, j as nat),
                            forall|t: D::State|
                                val@.contains_key(t) <==> exists|m: int|
                                    0 <= m < k && (#[trigger] order@[m]).1 == t,
                            forall|t: D::State|
                                val@.contains_key(t) ==> val@[t] == pull_value::<D>(ctx, t),
                        decreases childs.len() - j,
                    {
                        let c = &childs[j];
                        proof {
                            assert(next(*s).contains(*c));
                            assert(rank(*c) < rank(*s));
                            lemma_neighbour_is_earlier(next, rank, roots0, order@, k as int, *c);
                        }
                        let got = fx_get(&val, c);
                        let value = got.unwrap();
                        assert(*value == pull_value::<D>(ctx, *c));
                        let ghost before = refs@;
                        refs.push(ChildRef { state: c, value });
                        proof {
                            assert(next(*s)[j as int] == *c);
                            assert(child_pairs(refs@) =~= child_pairs(before).push((*c, *value)));
                            assert(pull_children::<D>(ctx, *s, (j + 1) as nat) == pull_children::<
                                D,
                            >(ctx, *s, j as nat).push((*c, *value)));
                        }
                        j += 1;
                    }
                    let ghost given = child_pairs(refs@);
                    let v = D::combine(ctx, s, refs);
                    proof {
                        assert(pull_may_combine::<D>(ctx, *s, given, v));
                        let w = pull_combine::<D>(ctx, *s, given);
                        assert(pull_may_combine::<D>(ctx, *s, given, w));
                    }
                    v
                },
            };
            assert(v == pull_value::<D>(ctx, *s));
            let key = s.clone();
            let ghost before = val@;
            fx_insert(&mut val, key, v);
            proof {
                assert forall|t: D::State| val@.contains_key(t) <==> exists|m: int|
                    0 <= m < k + 1 && (#[trigger] order@[m]).1 == t by {
                    if val@.contains_key(t) {
                        if t == *s {
                            assert(order@[k as int].1 == t);
                        } else {
                            assert(before.contains_key(t));
                            let m = choose|m: int| 0 <= m < k && (#[trigger] order@[m]).1 == t;
                            assert(0 <= m < k + 1 && order@[m].1 == t);
                        }
                    }
                    if exists|m: int| 0 <= m < k + 1 && (#[trigger] order@[m]).1 == t {
                        let m = choose|m: int| 0 <= m < k + 1 && (#[trigger] order@[m]).1 == t;
                        if m < k {
                            assert(before.contains_key(t));
                        }
                    }
                }
            }
            k += 1;
        }
        proof {
            assert forall|s: D::State| val@.contains_key(s) <==> states_of(order@).contains(s) by {
                if val@.contains_key(s) {
                    let m = choose|m: int| 0 <= m < k && (#[trigger] order@[m]).1 == s;
                    assert(states_of(order@)[m] == s);
                }
                if states_of(order@).contains(s) {
                    let m = choose|m: int|
                        0 <= m < states_of(order@).len() && states_of(order@)[m] == s;
                    assert(order@[m].1 == s);
                }
            }
        }
        val
    }

    /// Discovers the states below `roots` and evaluates them: the table binds
    /// exactly the states reachable from `roots`, each to its value.
    pub fn solve<D: PullDPRules>(ctx: &D::Ctx, roots: Vec<D::State>) -> (val: FxHashMap<
        D::State,
        D::Value,
    >)
        requires
            lawful_key::<D::State>(),
            pull_rules_are_functions::<D>(ctx),
            reach_set(pull_next::<D>(ctx), roots@).finite(),
            ranks_fall(pull_next::<D>(ctx), pull_rank::<D>(ctx), roots@),
        ensures
            forall|s: D::State| val@.contains_key(s) <==> reachable(pull_next::<D>(ctx), roots@, s),
            forall|s: D::State| val@.contains_key(s) ==> val@[s] == pull_value::<D>(ctx, s),
    {
        let plan = Self::prepare::<D>(ctx, roots);
        Self::solve_with_plan::<D>(ctx, &plan)
    }
}

} // verus!
