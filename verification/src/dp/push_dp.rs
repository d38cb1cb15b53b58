//! Push-style propagation over a DAG.
//!
//! Every state holds an accumulator. States are visited by ascending rank;
//! a visited state sends one contribution along each of its edges, and the
//! receiving accumulator folds it in with the problem's monoid operation.

use super::discovery::{
    is_schedule, plan_graph, ranks_rise, reach_set, reachable, records_neighbours, states_of,
};
use super::push_laws::{lemma_push_result_is_order_independent, op_is_commutative};
use crate::fx::{fx_get, fx_insert, lawful_key};
use crate::values::clone_is_exact;
use rustc_hash::FxHashMap;
use std::fmt::Debug;
use std::hash::Hash;
use vstd::prelude::*;

verus! {

/// The rules of one push-style problem.
///
/// `rank` orders the states: every successor of a state ranks strictly
/// higher than the state itself. `succs` lists the states that a state sends
/// a contribution to. `identity` and `op` are the monoid in which
/// contributions are folded: `identity` is what an accumulator holds that
/// nothing has reached, and `op` folds `add` into `into`. `init` gives the
/// value that a source starts with, and `None` for every other state.
/// `trans` gives what `from`, holding `v_from`, sends to `to`.
pub trait PushDPRules {
    type State: Clone + Eq + Hash + Debug;

    type Value: Clone + Debug;

    type Ctx;

    fn rank(ctx: &Self::Ctx, s: &Self::State) -> usize;

    fn succs(ctx: &Self::Ctx, s: &Self::State) -> Vec<Self::State>;

    fn identity(ctx: &Self::Ctx) -> Self::Value;

    fn op(ctx: &Self::Ctx, into: &Self::Value, add: &Self::Value) -> Self::Value;

    fn init(ctx: &Self::Ctx, s: &Self::State) -> Option<Self::Value>;

    fn trans(
        ctx: &Self::Ctx,
        from: &Self::State,
        to: &Self::State,
        v_from: &Self::Value,
    ) -> Self::Value;
}

/// Each rule of `D` is a function: what it returns is fixed by what it is
/// given.
pub open spec fn push_rules_are_functions<D: PushDPRules>(ctx: &D::Ctx) -> bool {
    &&& forall|s: D::State, a: usize, b: usize|
        #[trigger] call_ensures(D::rank, (ctx, &s), a) && #[trigger] call_ensures(D::rank, (ctx, &s), b)
            ==> a == b
    &&& forall|s: D::State, a: Vec<D::State>, b: Vec<D::State>|
        #[trigger] call_ensures(D::succs, (ctx, &s), a) && #[trigger] call_ensures(D::succs, (ctx, &s), b)
            ==> a@ == b@
    &&& forall|a: D::Value, b: D::Value|
        #[trigger] call_ensures(D::identity, (ctx,), a) && #[trigger] call_ensures(D::identity, (ctx,), b)
            ==> a == b
    &&& forall|x: D::Value, y: D::Value, a: D::Value, b: D::Value|
        #[trigger] call_ensures(D::op, (ctx, &x, &y), a) && #[trigger] call_ensures(D::op, (ctx, &x, &y), b)
            ==> a == b
    &&& forall|s: D::State, a: Option<D::Value>, b: Option<D::Value>|
        #[trigger] call_ensures(D::init, (ctx, &s), a) && #[trigger] call_ensures(D::init, (ctx, &s), b)
            ==> a == b
    &&& forall|s: D::State, t: D::State, x: D::Value, a: D::Value, b: D::Value|
        #[trigger] call_ensures(D::trans, (ctx, &s, &t, &x), a) && #[trigger] call_ensures(D::trans, (ctx, &s, &t, &x), b)
            ==> a == b
}

/// The successor function of the problem `D` under `ctx`.
pub open spec fn push_next<D: PushDPRules>(ctx: &D::Ctx) -> spec_fn(D::State) -> Seq<D::State> {
    |s: D::State| (choose|ns: Vec<D::State>| call_ensures(D::succs, (ctx, &s), ns))@
}

/// The rank function of the problem `D` under `ctx`.
pub open spec fn push_rank<D: PushDPRules>(ctx: &D::Ctx) -> spec_fn(D::State) -> nat {
    |s: D::State| (choose|r: usize| call_ensures(D::rank, (ctx, &s), r)) as nat
}

/// The identity of the monoid.
pub open spec fn push_identity<D: PushDPRules>(ctx: &D::Ctx) -> D::Value {
    choose|e: D::Value| call_ensures(D::identity, (ctx,), e)
}

/// The accumulator `into` after `add` was folded in.
pub open spec fn push_op<D: PushDPRules>(ctx: &D::Ctx, into: D::Value, add: D::Value) -> D::Value {
    choose|v: D::Value| call_ensures(D::op, (ctx, &into, &add), v)
}

/// The value that `s` starts with, if it is a source.
pub open spec fn push_init<D: PushDPRules>(ctx: &D::Ctx, s: D::State) -> Option<D::Value> {
    choose|v: Option<D::Value>| call_ensures(D::init, (ctx, &s), v)
}

/// What `from`, holding `v_from`, sends to `to`.
pub open spec fn push_trans<D: PushDPRules>(
    ctx: &D::Ctx,
    from: D::State,
    to: D::State,
    v_from: D::Value,
) -> D::Value {
    choose|v: D::Value| call_ensures(D::trans, (ctx, &from, &to, &v_from), v)
}

/// What the accumulator of `s` holds in the table `acc`: the identity where
/// the table does not bind `s`.
pub open spec fn held<D: PushDPRules>(ctx: &D::Ctx, acc: Map<D::State, D::Value>, s: D::State) -> D::Value {
    if acc.contains_key(s) {
        acc[s]
    } else {
        push_identity::<D>(ctx)
    }
}

/// The table after seeding: each state of `order` that has an initial value
/// is bound to it.
pub open spec fn seeded<D: PushDPRules>(ctx: &D::Ctx, order: Seq<(usize, D::State)>) -> Map<
    D::State,
    D::Value,
>
    decreases order.len(),
{
    if order.len() == 0 {
        Map::empty()
    } else {
        let rest = seeded::<D>(ctx, order.drop_last());
        let s = order.last().1;
        match push_init::<D>(ctx, s) {
            Some(v) => rest.insert(s, v),
            None => rest,
        }
    }
}

/// The table `acc` after `s`, holding `v`, has sent its contribution to each
/// of `succs` in turn.
pub open spec fn pushed_from<D: PushDPRules>(
    ctx: &D::Ctx,
    s: D::State,
    v: D::Value,
    succs: Seq<D::State>,
    acc: Map<D::State, D::Value>,
) -> Map<D::State, D::Value>
    decreases succs.len(),
{
    if succs.len() == 0 {
        acc
    } else {
        let prev = pushed_from::<D>(ctx, s, v, succs.drop_last(), acc);
        let t = succs.last();
        let inc = push_trans::<D>(ctx, s, t, v);
        prev.insert(t, push_op::<D>(ctx, held::<D>(ctx, prev, t), inc))
    }
}

/// The table `acc` after the states of `order` have been visited in turn:
/// each, holding what its accumulator holds when its turn comes, sends to
/// all its successors.
pub open spec fn propagated<D: PushDPRules>(
    ctx: &D::Ctx,
    order: Seq<(usize, D::State)>,
    acc: Map<D::State, D::Value>,
) -> Map<D::State, D::Value>
    decreases order.len(),
{
    if order.len() == 0 {
        acc
    } else {
        let prev = propagated::<D>(ctx, order.drop_last(), acc);
        let s = order.last().1;
        pushed_from::<D>(ctx, s, held::<D>(ctx, prev, s), push_next::<D>(ctx)(s), prev)
    }
}

/// The outcome of a whole run over `order`: seeding, then propagation.
pub open spec fn push_result<D: PushDPRules>(ctx: &D::Ctx, order: Seq<(usize, D::State)>) -> Map<
    D::State,
    D::Value,
> {
    propagated::<D>(ctx, order, seeded::<D>(ctx, order))
}

/// Discovers the states below `sources`, seeds them and propagates.
fn run<D: PushDPRules>(ctx: &D::Ctx, sources: Vec<D::State>) -> (val: FxHashMap<D::State, D::Value>)
    requires
        lawful_key::<D::State>(),
        clone_is_exact::<D::Value>(),
        push_rules_are_functions::<D>(ctx),
        reach_set(push_next::<D>(ctx), sources@).finite(),
        ranks_rise(push_next::<D>(ctx), push_rank::<D>(ctx), sources@),
    ensures
        exists|order: Seq<(usize, D::State)>|
            {
                &&& #[trigger] is_schedule(push_next::<D>(ctx), push_rank::<D>(ctx), sources@, order)
                &&& val@ == push_result::<D>(ctx, order)
            },
        op_is_commutative::<D>(ctx) ==> forall|order: Seq<(usize, D::State)>| #[trigger]
            is_schedule(push_next::<D>(ctx), push_rank::<D>(ctx), sources@, order) ==> val@
                == push_result::<D>(ctx, order),
{
    let ghost next = push_next::<D>(ctx);
    let ghost rank = push_rank::<D>(ctx);
    let ghost roots0 = sources@;
    let (order, adj) = plan_graph(ctx, sources, D::rank, D::succs, Ghost(rank), Ghost(next));
    let mut val: FxHashMap<D::State, D::Value> = FxHashMap::default();

    let mut k: usize = 0;
    while k < order.len()
        invariant
            lawful_key::<D::State>(),
            push_rules_are_functions::<D>(ctx),
            k <= order.len(),
            val@ == seeded::<D>(ctx, order@.take(k as int)),
        decreases order.len() - k,
    {
        let s = &order[k].1;
        proof {
            let upto = order@.take(k + 1);
            assert(upto.drop_last() =~= order@.take(k as int));
            assert(upto.last() == order@[k as int]);
        }
        match D::init(ctx, s) {
            Some(v0) => {
                fx_insert(&mut val, s.clone(), v0);
            },
            None => {},
        }
        k += 1;
    }
    assert(order@.take(order.len() as int) =~= order@);
    let ghost seed = val@;

    let mut k: usize = 0;
    while k < order.len()
        invariant
            lawful_key::<D::State>(),
            clone_is_exact::<D::Value>(),
            push_rules_are_functions::<D>(ctx),
            next == push_next::<D>(ctx),
            is_schedule(next, rank, roots0, order@),
            records_neighbours(next, roots0, adj@),
            k <= order.len(),
            val@ == propagated::<D>(ctx, order@.take(k as int), seed),
        decreases order.len() - k,
    {
        let s = &order[k].1;
        proof {
            let upto = order@.take(k + 1);
            assert(upto.drop_last() =~= order@.take(k as int));
            assert(upto.last() == order@[k as int]);
            assert(states_of(order@)[k as int] == *s);
            assert(states_of(order@).contains(*s));
            assert(reachable(next, roots0, *s));
        }
        let vs = match fx_get(&val, s) {
            Some(v) => v.clone(),
            None => D::identity(ctx),
        };
        assert(vs == held::<D>(ctx, val@, *s));
        let ghost start = val@;
        let found = fx_get(&adj, s);
        assert(adj@.contains_key(*s));
        let succs = found.unwrap();
        assert(succs@ == next(*s));
        let mut j: usize = 0;
        while j < succs.len()
            invariant
                lawful_key::<D::State>(),
                push_rules_are_functions::<D>(ctx),
                j <= succs.len(),
                val@ == pushed_from::<D>(ctx, *s, vs, succs@.take(j as int), start),
            decreases succs.len() - j,
        {
            let t = &succs[j];
            proof {
                let upto = succs@.take(j + 1);
                assert(upto.drop_last() =~= succs@.take(j as int));
                assert(upto.last() == succs@[j as int]);
            }
            let inc = D::trans(ctx, s, t, &vs);
            let folded = match fx_get(&val, t) {
                Some(cur) => D::op(ctx, cur, &inc),
                None => {
                    let e = D::identity(ctx);
                    D::op(ctx, &e, &inc)
                },
            };
            fx_insert(&mut val, t.clone(), folded);
            j += 1;
        }
        assert(succs@.take(succs.len() as int) =~= succs@);
        k += 1;
    }
    assert(order@.take(order.len() as int) =~= order@);
    proof {
        if op_is_commutative::<D>(ctx) {
            assert forall|other: Seq<(usize, D::State)>| #[trigger]
                is_schedule(next, rank, roots0, other) implies val@ == push_result::<D>(
                ctx,
                other,
            ) by {
                lemma_push_result_is_order_independent::<D>(ctx, roots0, order@, other);
            }
        }
    }
    val
}

pub struct PushDpEngine;

impl PushDpEngine {
    /// Propagates from `sources` and returns the table of accumulators.
    ///
    /// The table is what seeding and then visiting every state reachable
    /// from `sources` once, lower ranks first, leaves behind. Which of
    /// several states of equal rank comes first is not fixed; where the
    /// operation of the monoid is associative and commutative it does not
    /// matter, and the table is what every such visit leaves behind.
    pub fn propagate<D: PushDPRules>(ctx: &D::Ctx, sources: Vec<D::State>) -> (val: FxHashMap<
        D::State,
        D::Value,
    >)
        requires
            lawful_key::<D::State>(),
            clone_is_exact::<D::Value>(),
            push_rules_are_functions::<D>(ctx),
            reach_set(push_next::<D>(ctx), sources@).finite(),
            ranks_rise(push_next::<D>(ctx), push_rank::<D>(ctx), sources@),
        ensures
            exists|order: Seq<(usize, D::State)>|
                {
                    &&& #[trigger] is_schedule(
                        push_next::<D>(ctx),
                        push_rank::<D>(ctx),
                        sources@,
                        order,
                    )
                    &&& val@ == push_result::<D>(ctx, order)
                },
            op_is_commutative::<D>(ctx) ==> forall|order: Seq<(usize, D::State)>| #[trigger]
                is_schedule(push_next::<D>(ctx), push_rank::<D>(ctx), sources@, order) ==> val@
                    == push_result::<D>(ctx, order),
    {
        run::<D>(ctx, sources)
    }
}

/// The same engine as `PushDpEngine`, under its other name.
pub struct PushDpEngineEnhanced;

impl PushDpEngineEnhanced {
    /// Propagates from `sources` and returns the table of accumulators, as
    /// `PushDpEngine::propagate` does.
    pub fn propagate<D: PushDPRules>(ctx: &D::Ctx, sources: Vec<D::State>) -> (val: FxHashMap<
        D::State,
        D::Value,
    >)
        requires
            lawful_key::<D::State>(),
            clone_is_exact::<D::Value>(),
            push_rules_are_functions::<D>(ctx),
            reach_set(push_next::<D>(ctx), sources@).finite(),
            ranks_rise(push_next::<D>(ctx), push_rank::<D>(ctx), sources@),
        ensures
            exists|order: Seq<(usize, D::State)>|
                {
                    &&& #[trigger] is_schedule(
                        push_next::<D>(ctx),
                        push_rank::<D>(ctx),
                        sources@,
                        order,
                    )
                    &&& val@ == push_result::<D>(ctx, order)
                },
            op_is_commutative::<D>(ctx) ==> forall|order: Seq<(usize, D::State)>| #[trigger]
                is_schedule(push_next::<D>(ctx), push_rank::<D>(ctx), sources@, order) ==> val@
                    == push_result::<D>(ctx, order),
    {
        run::<D>(ctx, sources)
    }
}

} // verus!
