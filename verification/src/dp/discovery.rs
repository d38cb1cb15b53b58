//! State discovery and scheduling, shared by the DAG engines.
//!
//! A problem is a graph that is never written down: from a state, a rule
//! function lists its neighbours. Discovery walks that graph from the given
//! roots and records every state it meets once, with its rank and its
//! neighbour list. Scheduling then groups what was found into rank buckets
//! and reads them out, lowest rank first.

use super::buckets::{lemma_buckets_keep_listing, schedule_by_rank};
use crate::fx::{fx_insert, fx_set_insert};
use crate::values::clone_is_exact;
use rustc_hash::{FxHashMap, FxHashSet};
use std::hash::Hash;
use vstd::prelude::*;
use vstd::std_specs::hash::obeys_key_model;

verus! {

/// `w` is a non-empty walk: each state is followed by one of its neighbours.
pub open spec fn is_walk<S>(next: spec_fn(S) -> Seq<S>, w: Seq<S>) -> bool {
    &&& w.len() > 0
    &&& forall|i: int| 0 <= i < w.len() - 1 ==> next(#[trigger] w[i]).contains(w[i + 1])
}

/// `w` is a walk from one of `roots` to `s`.
pub open spec fn walks_to<S>(next: spec_fn(S) -> Seq<S>, roots: Seq<S>, w: Seq<S>, s: S) -> bool {
    is_walk(next, w) && roots.contains(w[0]) && w[w.len() - 1] == s
}

/// `s` can be reached from one of `roots` by following neighbours.
pub open spec fn reachable<S>(next: spec_fn(S) -> Seq<S>, roots: Seq<S>, s: S) -> bool {
    exists|w: Seq<S>| #[trigger] walks_to(next, roots, w, s)
}

/// Every state that can be reached from `roots`.
pub open spec fn reach_set<S>(next: spec_fn(S) -> Seq<S>, roots: Seq<S>) -> Set<S> {
    Set::new(|s: S| reachable(next, roots, s))
}

/// A root is reachable.
pub proof fn lemma_root_reachable<S>(next: spec_fn(S) -> Seq<S>, roots: Seq<S>, s: S)
    requires
        roots.contains(s),
    ensures
        reachable(next, roots, s),
{
    assert(walks_to(next, roots, seq![s], s));
}

/// A neighbour of a reachable state is reachable.
pub proof fn lemma_step_reachable<S>(next: spec_fn(S) -> Seq<S>, roots: Seq<S>, s: S, t: S)
    requires
        reachable(next, roots, s),
        next(s).contains(t),
    ensures
        reachable(next, roots, t),
{
    let w = choose|w: Seq<S>| #[trigger] walks_to(next, roots, w, s);
    let w2 = w.push(t);
    assert forall|i: int| 0 <= i < w2.len() - 1 implies next(#[trigger] w2[i]).contains(
        w2[i + 1],
    ) by {
        if i < w.len() - 1 {
            assert(w2[i] == w[i]);
            assert(w2[i + 1] == w[i + 1]);
        }
    }
    assert(walks_to(next, roots, w2, t));
}

/// A set that holds the roots and, with each state, its neighbours, holds
/// every state a walk from the roots ends in.
proof fn lemma_walk_stays_inside<S>(
    next: spec_fn(S) -> Seq<S>,
    roots: Seq<S>,
    closed: Set<S>,
    w: Seq<S>,
    k: int,
)
    requires
        is_walk(next, w),
        roots.contains(w[0]),
        0 <= k < w.len(),
        forall|r: S| roots.contains(r) ==> closed.contains(r),
        forall|s: S, t: S| closed.contains(s) && #[trigger] next(s).contains(t) ==> closed.contains(t),
    ensures
        closed.contains(w[k]),
    decreases k,
{
    if k > 0 {
        lemma_walk_stays_inside(next, roots, closed, w, k - 1);
        assert(next(w[k - 1]).contains(w[k - 1 + 1]));
    }
}

/// A set that holds the roots and is closed under neighbours holds every
/// reachable state.
pub proof fn lemma_closed_set_covers<S>(next: spec_fn(S) -> Seq<S>, roots: Seq<S>, closed: Set<S>)
    requires
        forall|r: S| roots.contains(r) ==> closed.contains(r),
        forall|s: S, t: S| closed.contains(s) && #[trigger] next(s).contains(t) ==> closed.contains(t),
    ensures
        forall|s: S| reachable(next, roots, s) ==> closed.contains(s),
{
    assert forall|s: S| reachable(next, roots, s) implies closed.contains(s) by {
        let w = choose|w: Seq<S>| #[trigger] walks_to(next, roots, w, s);
        lemma_walk_stays_inside(next, roots, closed, w, w.len() - 1);
    }
}

/// The states of a list of ranked states, in the same order.
pub open spec fn states_of<S>(found: Seq<(usize, S)>) -> Seq<S> {
    found.map_values(|p: (usize, S)| p.1)
}

/// `found` lists exactly the states reachable from `roots`, each once and
/// each with its rank.
pub open spec fn lists_reachable<S>(
    next: spec_fn(S) -> Seq<S>,
    rank: spec_fn(S) -> nat,
    roots: Seq<S>,
    found: Seq<(usize, S)>,
) -> bool {
    &&& states_of(found).no_duplicates()
    &&& forall|s: S| states_of(found).contains(s) <==> reachable(next, roots, s)
    &&& forall|i: int| 0 <= i < found.len() ==> (#[trigger] found[i]).0 == rank(found[i].1)
}

/// `adj` binds exactly the states reachable from `roots`, each to its
/// neighbour list.
pub open spec fn records_neighbours<S>(
    next: spec_fn(S) -> Seq<S>,
    roots: Seq<S>,
    adj: Map<S, Vec<S>>,
) -> bool {
    &&& forall|s: S| adj.contains_key(s) <==> reachable(next, roots, s)
    &&& forall|s: S| adj.contains_key(s) ==> (#[trigger] adj[s])@ == next(s)
}

/// What holds of the tables while discovery runs. `pending` is the state
/// whose neighbours are being looked at, if there is one.
spec fn exploring<S>(
    next: spec_fn(S) -> Seq<S>,
    rank: spec_fn(S) -> nat,
    roots: Seq<S>,
    seen: Set<S>,
    found: Seq<(usize, S)>,
    adj: Map<S, Vec<S>>,
    stack: Seq<S>,
    pending: Option<S>,
) -> bool {
    &&& seen.finite()
    &&& states_of(found).no_duplicates()
    &&& forall|s: S| seen.contains(s) <==> states_of(found).contains(s)
    &&& forall|i: int| 0 <= i < found.len() ==> (#[trigger] found[i]).0 == rank(found[i].1)
    &&& forall|s: S| seen.contains(s) ==> reachable(next, roots, s)
    &&& forall|s: S| #[trigger] adj.contains_key(s) ==> seen.contains(s) && adj[s]@ == next(s)
    &&& forall|s: S, t: S| adj.contains_key(s) && #[trigger] next(s).contains(t) ==> seen.contains(t)
    &&& forall|s: S|
        seen.contains(s) ==> stack.contains(s) || adj.contains_key(s) || pending == Some(s)
    &&& forall|k: int| 0 <= k < stack.len() ==> seen.contains(#[trigger] stack[k])
}

/// Adding a new state to the list of found states keeps it free of
/// duplicates and adds that state to what it contains.
proof fn lemma_found_push<S>(found: Seq<(usize, S)>, r: usize, t: S)
    requires
        states_of(found).no_duplicates(),
        !states_of(found).contains(t),
    ensures
        states_of(found.push((r, t))) == states_of(found).push(t),
        states_of(found.push((r, t))).no_duplicates(),
        forall|s: S|
            states_of(found.push((r, t))).contains(s) <==> (s == t || states_of(found).contains(s)),
{
    let a = states_of(found.push((r, t)));
    let b = states_of(found).push(t);
    assert(a =~= b);
    assert forall|i: int, j: int| 0 <= i < b.len() && 0 <= j < b.len() && i != j implies b[i]
        != b[j] by {
        if i < found.len() && j < found.len() {
        } else if i < found.len() {
            assert(states_of(found)[i] == b[i]);
        } else {
            assert(states_of(found)[j] == b[j]);
        }
    }
    assert forall|s: S| b.contains(s) <==> (s == t || states_of(found).contains(s)) by {
        if b.contains(s) {
            let i = choose|i: int| 0 <= i < b.len() && b[i] == s;
            if i < found.len() {
                assert(states_of(found)[i] == s);
            }
        }
        if states_of(found).contains(s) {
            let i = choose|i: int| 0 <= i < states_of(found).len() && states_of(found)[i] == s;
            assert(b[i] == s);
        }
        if s == t {
            assert(b[found.len() as int] == t);
        }
    }
}

/// Walks the graph from `roots` and returns every reachable state once, with
/// its rank, in the order in which it was first met, together with the
/// neighbour list of each.
///
/// The walk keeps an explicit stack. It ends because a state enters the
/// stack only when it is met for the first time, and only finitely many
/// states can be met.
pub(crate) fn discover<C, S, FR, FN>(
    ctx: &C,
    roots: Vec<S>,
    rank: FR,
    next: FN,
    Ghost(rank_of): Ghost<spec_fn(S) -> nat>,
    Ghost(next_of): Ghost<spec_fn(S) -> Seq<S>>,
) -> (out: (Vec<(usize, S)>, FxHashMap<S, Vec<S>>)) where
    S: Clone + Eq + Hash,
    FR: Fn(&C, &S) -> usize,
    FN: Fn(&C, &S) -> Vec<S>,

    requires
        obeys_key_model::<S>(),
        clone_is_exact::<S>(),
        reach_set(next_of, roots@).finite(),
        forall|s: S| #[trigger] call_requires(rank, (ctx, &s)),
        forall|s: S| #[trigger] call_requires(next, (ctx, &s)),
        forall|s: S, r: usize| #[trigger] call_ensures(rank, (ctx, &s), r) ==> r == rank_of(s),
        forall|s: S, ns: Vec<S>| #[trigger] call_ensures(next, (ctx, &s), ns) ==> ns@ == next_of(s),
    ensures
        lists_reachable(next_of, rank_of, roots@, out.0@),
        records_neighbours(next_of, roots@, out.1@),
{
    let ghost roots0 = roots@;
    let ghost universe = reach_set(next_of, roots0);
    let mut seen: FxHashSet<S> = FxHashSet::default();
    let mut found: Vec<(usize, S)> = Vec::new();
    let mut adj: FxHashMap<S, Vec<S>> = FxHashMap::default();
    let mut stack: Vec<S> = Vec::new();

    assert(states_of(found@) =~= Seq::<S>::empty());
    let mut i: usize = 0;
    while i < roots.len()
        invariant
            obeys_key_model::<S>(),
            clone_is_exact::<S>(),
            roots@ == roots0,
            i <= roots.len(),
            adj@ == Map::<S, Vec<S>>::empty(),
            seen@.finite(),
            states_of(found@).no_duplicates(),
            forall|s: S| seen@.contains(s) <==> states_of(found@).contains(s),
            forall|k: int| 0 <= k < found@.len() ==> (#[trigger] found@[k]).0 == rank_of(found@[k].1),
            forall|s: S| seen@.contains(s) ==> roots0.contains(s),
            forall|s: S| seen@.contains(s) ==> stack@.contains(s),
            forall|k: int| 0 <= k < stack@.len() ==> seen@.contains(#[trigger] stack@[k]),
            forall|k: int| 0 <= k < i ==> seen@.contains(#[trigger] roots0[k]),
            forall|s: S| #[trigger] call_requires(rank, (ctx, &s)),
            forall|s: S, r: usize| #[trigger] call_ensures(rank, (ctx, &s), r) ==> r == rank_of(s),
        decreases roots.len() - i,
    {
        let s = roots[i].clone();
        assert(s == roots0[i as int]);
        let ghost stack_mid = stack@;
        let fresh = fx_set_insert(&mut seen, s);
        if fresh {
            let r = rank(ctx, &roots[i]);
            let t1 = roots[i].clone();
            let t2 = roots[i].clone();
            proof {
                lemma_found_push(found@, r, t1);
            }
            found.push((r, t1));
            stack.push(t2);
            proof {
                assert forall|x: S| seen@.contains(x) implies stack@.contains(x) by {
                    if x == s {
                        assert(stack@[stack_mid.len() as int] == s);
                    } else {
                        let k = choose|k: int| 0 <= k < stack_mid.len() && stack_mid[k] == x;
                        assert(stack@[k] == x);
                    }
                }
                assert forall|k: int| 0 <= k < stack@.len() implies seen@.contains(
                    #[trigger] stack@[k],
                ) by {
                    if k < stack_mid.len() {
                        assert(stack@[k] == stack_mid[k]);
                    }
                }
            }
        }
        i += 1;
    }

    proof {
        assert forall|s: S| seen@.contains(s) implies reachable(next_of, roots0, s) by {
            lemma_root_reachable(next_of, roots0, s);
        }
        assert(exploring(next_of, rank_of, roots0, seen@, found@, adj@, stack@, None));
    }

    while stack.len() > 0
        invariant
            obeys_key_model::<S>(),
            clone_is_exact::<S>(),
            universe == reach_set(next_of, roots0),
            universe.finite(),
            exploring(next_of, rank_of, roots0, seen@, found@, adj@, stack@, None),
            forall|k: int| 0 <= k < roots0.len() ==> seen@.contains(#[trigger] roots0[k]),
            forall|s: S| #[trigger] call_requires(rank, (ctx, &s)),
            forall|s: S| #[trigger] call_requires(next, (ctx, &s)),
            forall|s: S, r: usize| #[trigger] call_ensures(rank, (ctx, &s), r) ==> r == rank_of(s),
            forall|s: S, ns: Vec<S>| #[trigger]
                call_ensures(next, (ctx, &s), ns) ==> ns@ == next_of(s),
        decreases 2 * (universe.len() - seen@.len()) + stack.len(),
    {
        proof {
            assert(seen@.subset_of(universe));
            vstd::set_lib::lemma_len_subset(seen@, universe);
        }
        let ghost before = 2 * (universe.len() - seen@.len()) + stack.len();
        let ghost stack_before = stack@;
        let s = stack.pop().unwrap();
        assert(stack_before[stack_before.len() - 1] == s);
        assert(seen@.contains(s));
        proof {
            assert forall|x: S| seen@.contains(x) implies stack@.contains(x) || adj@.contains_key(x)
                || Some(s) == Some(x) by {
                if stack_before.contains(x) {
                    let k = choose|k: int| 0 <= k < stack_before.len() && stack_before[k] == x;
                    if k < stack@.len() {
                        assert(stack@[k] == x);
                    }
                }
            }
            assert forall|k: int| 0 <= k < stack@.len() implies seen@.contains(
                #[trigger] stack@[k],
            ) by {
                assert(stack@[k] == stack_before[k]);
            }
        }
        let ns = next(ctx, &s);
        let mut j: usize = 0;
        while j < ns.len()
            invariant
                obeys_key_model::<S>(),
                clone_is_exact::<S>(),
                universe == reach_set(next_of, roots0),
                universe.finite(),
                j <= ns.len(),
                ns@ == next_of(s),
                seen@.contains(s),
                exploring(next_of, rank_of, roots0, seen@, found@, adj@, stack@, Some(s)),
                forall|k: int| 0 <= k < roots0.len() ==> seen@.contains(#[trigger] roots0[k]),
                forall|k: int| 0 <= k < j ==> seen@.contains(#[trigger] ns@[k]),
                2 * (universe.len() - seen@.len()) + stack.len() < before,
                forall|s: S| #[trigger] call_requires(rank, (ctx, &s)),
                forall|s: S, r: usize| #[trigger]
                    call_ensures(rank, (ctx, &s), r) ==> r == rank_of(s),
            decreases ns.len() - j,
        {
            let t = ns[j].clone();
            assert(t == ns@[j as int]);
            let ghost seen_before = seen@;
            let ghost stack_mid = stack@;
            let fresh = fx_set_insert(&mut seen, t);
            proof {
                assert(next_of(s).contains(t));
                lemma_step_reachable(next_of, roots0, s, t);
            }
            if fresh {
                let r = rank(ctx, &ns[j]);
                let t1 = ns[j].clone();
                let t2 = ns[j].clone();
                proof {
                    lemma_found_push(found@, r, t1);
                }
                found.push((r, t1));
                stack.push(t2);
                proof {
                    assert(seen@.subset_of(universe));
                    vstd::set_lib::lemma_len_subset(seen@, universe);
                    assert forall|x: S| seen@.contains(x) implies stack@.contains(x)
                        || adj@.contains_key(x) || Some(s) == Some(x) by {
                        if x == t {
                            assert(stack@[stack_mid.len() as int] == t);
                        } else if stack_mid.contains(x) {
                            let k = choose|k: int| 0 <= k < stack_mid.len() && stack_mid[k] == x;
                            assert(stack@[k] == x);
                        }
                    }
                    assert forall|k: int| 0 <= k < stack@.len() implies seen@.contains(
                        #[trigger] stack@[k],
                    ) by {
                        if k < stack_mid.len() {
                            assert(stack@[k] == stack_mid[k]);
                        }
                    }
                }
            } else {
                assert(seen@ =~= seen_before);
            }
            j += 1;
        }
        let ghost adj_before = adj@;
        fx_insert(&mut adj, s, ns);
        proof {
            assert(seen@.subset_of(universe));
            vstd::set_lib::lemma_len_subset(seen@, universe);
            assert forall|a: S, b: S| adj@.contains_key(a) && #[trigger] next_of(a).contains(
                b,
            ) implies seen@.contains(b) by {
                if a == s {
                    let k = choose|k: int| 0 <= k < ns@.len() && ns@[k] == b;
                    assert(seen@.contains(ns@[k]));
                } else {
                    assert(adj_before.contains_key(a));
                }
            }
            assert(exploring(next_of, rank_of, roots0, seen@, found@, adj@, stack@, None));
        }
    }

    proof {
        assert forall|s: S| seen@.contains(s) implies #[trigger] adj@.contains_key(s) by {
            if stack@.contains(s) {
                let k = choose|k: int| 0 <= k < stack@.len() && stack@[k] == s;
            }
        }
        assert forall|r: S| roots0.contains(r) implies seen@.contains(r) by {
            let k = choose|k: int| 0 <= k < roots0.len() && roots0[k] == r;
            assert(seen@.contains(roots0[k]));
        }
        lemma_closed_set_covers(next_of, roots0, seen@);
        assert forall|s: S| states_of(found@).contains(s) <==> reachable(next_of, roots0, s) by {
            if reachable(next_of, roots0, s) {
                assert(seen@.contains(s));
            }
            if states_of(found@).contains(s) {
                assert(seen@.contains(s));
            }
        }
        assert forall|s: S| adj@.contains_key(s) <==> reachable(next_of, roots0, s) by {
            if reachable(next_of, roots0, s) {
                assert(seen@.contains(s));
            }
            if adj@.contains_key(s) {
                assert(seen@.contains(s));
            }
        }
        assert(lists_reachable(next_of, rank_of, roots0, found@));
        assert(records_neighbours(next_of, roots0, adj@));
    }
    (found, adj)
}

/// Ranks never decrease along the list.
pub open spec fn rank_sorted<S>(order: Seq<(usize, S)>) -> bool {
    forall|k: int, l: int| 0 <= k <= l < order.len() ==> order[k].0 <= order[l].0
}

/// `order` is a schedule for the graph below `roots`: it lists every
/// reachable state once, with its rank, lower ranks first.
pub open spec fn is_schedule<S>(
    next: spec_fn(S) -> Seq<S>,
    rank: spec_fn(S) -> nat,
    roots: Seq<S>,
    order: Seq<(usize, S)>,
) -> bool {
    lists_reachable(next, rank, roots, order) && rank_sorted(order)
}

/// Discovers the graph below `roots` and returns its states as a schedule,
/// with the neighbour list of each.
pub(crate) fn plan_graph<C, S, FR, FN>(
    ctx: &C,
    roots: Vec<S>,
    rank: FR,
    next: FN,
    Ghost(rank_of): Ghost<spec_fn(S) -> nat>,
    Ghost(next_of): Ghost<spec_fn(S) -> Seq<S>>,
) -> (out: (Vec<(usize, S)>, FxHashMap<S, Vec<S>>)) where
    S: Clone + Eq + Hash,
    FR: Fn(&C, &S) -> usize,
    FN: Fn(&C, &S) -> Vec<S>,

    requires
        obeys_key_model::<S>(),
        clone_is_exact::<S>(),
        reach_set(next_of, roots@).finite(),
        forall|s: S| #[trigger] call_requires(rank, (ctx, &s)),
        forall|s: S| #[trigger] call_requires(next, (ctx, &s)),
        forall|s: S, r: usize| #[trigger] call_ensures(rank, (ctx, &s), r) ==> r == rank_of(s),
        forall|s: S, ns: Vec<S>| #[trigger] call_ensures(next, (ctx, &s), ns) ==> ns@ == next_of(s),
    ensures
        is_schedule(next_of, rank_of, roots@, out.0@),
        records_neighbours(next_of, roots@, out.1@),
{
    let ghost roots0 = roots@;
    let (found, adj) = discover(ctx, roots, rank, next, Ghost(rank_of), Ghost(next_of));
    let order = schedule_by_rank(&found);
    proof {
        lemma_buckets_keep_listing(next_of, rank_of, roots0, found@, order@);
    }
    (order, adj)
}

/// In a schedule of a graph whose ranks fall along every edge, each
/// neighbour of a scheduled state stands earlier in the schedule.
pub proof fn lemma_neighbour_is_earlier<S>(
    next: spec_fn(S) -> Seq<S>,
    rank: spec_fn(S) -> nat,
    roots: Seq<S>,
    order: Seq<(usize, S)>,
    k: int,
    t: S,
)
    requires
        is_schedule(next, rank, roots, order),
        0 <= k < order.len(),
        next(order[k].1).contains(t),
        rank(t) < rank(order[k].1),
    ensures
        exists|m: int| 0 <= m < k && (#[trigger] order[m]).1 == t,
{
    let s = order[k].1;
    assert(states_of(order)[k] == s);
    assert(states_of(order).contains(s));
    lemma_step_reachable(next, roots, s, t);
    assert(states_of(order).contains(t));
    let m = choose|m: int| 0 <= m < states_of(order).len() && states_of(order)[m] == t;
    assert(order[m].1 == t);
    if m >= k {
        assert(order[k].0 <= order[m].0);
    }
}

/// Along every edge below `roots` the rank falls: a neighbour ranks strictly
/// lower than the state that lists it.
pub open spec fn ranks_fall<S>(next: spec_fn(S) -> Seq<S>, rank: spec_fn(S) -> nat, roots: Seq<S>) -> bool {
    forall|s: S, t: S|
        reachable(next, roots, s) && #[trigger] next(s).contains(t) ==> rank(t) < rank(s)
}

/// Along every edge below `roots` the rank rises: a successor ranks strictly
/// higher than the state that lists it.
pub open spec fn ranks_rise<S>(next: spec_fn(S) -> Seq<S>, rank: spec_fn(S) -> nat, roots: Seq<S>) -> bool {
    forall|s: S, t: S|
        reachable(next, roots, s) && #[trigger] next(s).contains(t) ==> rank(t) > rank(s)
}

} // verus!
