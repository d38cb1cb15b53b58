//! Depth-first search with a visited set.
//!
//! A search problem names the successors of a node, says which nodes are
//! goals and what to collect from a goal. The search visits every node that
//! can be reached from the start once and collects from the goals among them.

use super::discovery::{lemma_closed_set_covers, lemma_root_reachable, lemma_step_reachable, reach_set, reachable};
use crate::fx::{fx_set_insert, lawful_key};
use rustc_hash::FxHashSet;
use std::hash::Hash;
use vstd::prelude::*;

verus! {

/// The rules of one search problem.
///
/// `successors` lists the nodes that can be stepped to from a node,
/// `is_goal` says whether a node is a goal, and `collect` gives what is
/// collected from a goal.
pub trait Searchable {
    type Node: Clone + Hash + Eq;

    type Answer: Clone;

    fn successors(&self, node: &Self::Node) -> Vec<Self::Node>;

    fn is_goal(&self, node: &Self::Node) -> bool;

    fn collect(&self, node: &Self::Node) -> Self::Answer;
}

/// The rules of a search for the best goal: `is_better` says whether `new`
/// is to replace `old_best`.
pub trait BestSearchable: Searchable {
    fn is_better(&self, new: &Self::Answer, old_best: &Self::Answer) -> bool;
}

/// Each rule of `problem` is a function: what it returns is fixed by what
/// it is given.
pub open spec fn search_rules_are_functions<P: Searchable>(problem: &P) -> bool {
    &&& forall|s: P::Node, a: Vec<P::Node>, b: Vec<P::Node>|
        #[trigger] call_ensures(P::successors, (problem, &s), a) && #[trigger] call_ensures(P::successors, (problem, &s), b)
            ==> a@ == b@
    &&& forall|s: P::Node, a: bool, b: bool|
        #[trigger] call_ensures(P::is_goal, (problem, &s), a) && #[trigger] call_ensures(P::is_goal, (problem, &s), b)
            ==> a == b
    &&& forall|s: P::Node, a: P::Answer, b: P::Answer|
        #[trigger] call_ensures(P::collect, (problem, &s), a) && #[trigger] call_ensures(P::collect, (problem, &s), b)
            ==> a == b
}

/// `is_better` is a function too.
pub open spec fn better_is_function<P: BestSearchable>(problem: &P) -> bool {
    forall|x: P::Answer, y: P::Answer, a: bool, b: bool|
        #[trigger] call_ensures(P::is_better, (problem, &x, &y), a) && #[trigger] call_ensures(
            P::is_better,
            (problem, &x, &y),
            b,
        ) ==> a == b
}

/// The nodes that can be stepped to from `node`.
pub open spec fn search_successors<P: Searchable>(problem: &P, node: P::Node) -> Seq<P::Node> {
    (choose|ns: Vec<P::Node>| call_ensures(P::successors, (problem, &node), ns))@
}

/// Whether `node` is a goal.
pub open spec fn search_is_goal<P: Searchable>(problem: &P, node: P::Node) -> bool {
    choose|b: bool| call_ensures(P::is_goal, (problem, &node), b)
}

/// What is collected from the goal `node`.
pub open spec fn search_collect<P: Searchable>(problem: &P, node: P::Node) -> P::Answer {
    choose|a: P::Answer| call_ensures(P::collect, (problem, &node), a)
}

/// Whether `new` is to replace `old_best`.
pub open spec fn search_is_better<P: BestSearchable>(
    problem: &P,
    new: P::Answer,
    old_best: P::Answer,
) -> bool {
    choose|b: bool| call_ensures(P::is_better, (problem, &new, &old_best), b)
}

/// The successor function of `problem`.
pub open spec fn search_next<P: Searchable>(problem: &P) -> spec_fn(P::Node) -> Seq<P::Node> {
    |s: P::Node| search_successors(problem, s)
}

/// `s` is a goal that can be reached from `start`.
pub open spec fn is_reachable_goal<P: Searchable>(problem: &P, start: P::Node, s: P::Node) -> bool {
    reachable(search_next(problem), seq![start], s) && search_is_goal(problem, s)
}

/// `hits` lists every goal that can be reached from `start`, each once.
pub open spec fn lists_goals<P: Searchable>(problem: &P, start: P::Node, hits: Seq<P::Node>) -> bool {
    &&& hits.no_duplicates()
    &&& forall|s: P::Node| hits.contains(s) <==> is_reachable_goal(problem, start, s)
}

/// What is collected from each of `hits`, in order.
pub open spec fn collected<P: Searchable>(problem: &P, hits: Seq<P::Node>) -> Seq<P::Answer> {
    hits.map_values(|s: P::Node| search_collect(problem, s))
}

/// The best of what is collected from `hits`, taking them in order: an
/// answer replaces the best so far where the problem calls it better.
pub open spec fn best_of<P: BestSearchable>(problem: &P, hits: Seq<P::Node>) -> Option<P::Answer>
    decreases hits.len(),
{
    if hits.len() == 0 {
        None
    } else {
        let val = search_collect(problem, hits.last());
        match best_of(problem, hits.drop_last()) {
            None => Some(val),
            Some(b) => if search_is_better(problem, val, b) {
                Some(val)
            } else {
                Some(b)
            },
        }
    }
}

/// The number of nodes of `universe` that a walk has not visited yet.
pub open spec fn left_to_visit<N>(universe: Set<N>, visited: Set<N>) -> nat {
    universe.difference(visited).len()
}

/// The goals that the walk below `node` meets, in the order in which it
/// meets them, and the nodes visited after it. The walk enters a node, then
/// each of its successors in turn, and turns back at a node that it has
/// visited before.
pub open spec fn search_visit<P: Searchable>(
    problem: &P,
    universe: Set<P::Node>,
    node: P::Node,
    visited: Set<P::Node>,
) -> (Seq<P::Node>, Set<P::Node>)
    decreases left_to_visit(universe, visited), search_successors(problem, node).len() + 1,
{
    if visited.contains(node) {
        (Seq::empty(), visited)
    } else {
        search_fold(problem, universe, node, visited, search_successors(problem, node).len())
    }
}

/// The goals met and the nodes visited after the walk has entered `node`
/// and followed the first `k` of its successors.
pub open spec fn search_fold<P: Searchable>(
    problem: &P,
    universe: Set<P::Node>,
    node: P::Node,
    visited: Set<P::Node>,
    k: nat,
) -> (Seq<P::Node>, Set<P::Node>)
    decreases left_to_visit(universe, visited), k,
{
    if k == 0 {
        (
            if search_is_goal(problem, node) {
                seq![node]
            } else {
                Seq::empty()
            },
            visited.insert(node),
        )
    } else {
        let (hits, vis) = search_fold(problem, universe, node, visited, (k - 1) as nat);
        let next = search_successors(problem, node)[k - 1];
        if left_to_visit(universe, vis) < left_to_visit(universe, visited) {
            let (more, vis2) = search_visit(problem, universe, next, vis);
            (hits + more, vis2)
        } else {
            (hits, vis)
        }
    }
}

/// The goals that a search from `start` meets, in the order in which it
/// meets them.
pub open spec fn goals_in_order<P: Searchable>(problem: &P, start: P::Node) -> Seq<P::Node> {
    search_visit(problem, reach_set(search_next(problem), seq![start]), start, Set::empty()).0
}

/// The first of `hits`, if there is one.
pub open spec fn first_of<N>(hits: Seq<N>) -> Seq<N> {
    if hits.len() > 0 {
        seq![hits[0]]
    } else {
        hits
    }
}

/// Following more successors only adds to the goals met.
pub proof fn lemma_search_fold_grows<P: Searchable>(
    problem: &P,
    universe: Set<P::Node>,
    node: P::Node,
    visited: Set<P::Node>,
    k: nat,
    m: nat,
)
    requires
        k <= m,
    ensures
        search_fold(problem, universe, node, visited, k).0.len() <= search_fold(
            problem,
            universe,
            node,
            visited,
            m,
        ).0.len(),
        forall|i: int|
            0 <= i < search_fold(problem, universe, node, visited, k).0.len() ==> search_fold(
                problem,
                universe,
                node,
                visited,
                m,
            ).0[i] == search_fold(problem, universe, node, visited, k).0[i],
    decreases m,
{
    if m > k {
        lemma_search_fold_grows(problem, universe, node, visited, k, (m - 1) as nat);
    }
}

/// A walk that has visited more of a finite universe has less left to
/// visit.
pub proof fn lemma_left_to_visit<N>(universe: Set<N>, before: Set<N>, after: Set<N>, node: N)
    requires
        universe.finite(),
        universe.contains(node),
        !before.contains(node),
        before.insert(node).subset_of(after),
    ensures
        left_to_visit(universe, after) < left_to_visit(universe, before),
{
    let a = universe.difference(after);
    let b = universe.difference(before);
    vstd::set_lib::lemma_len_subset(b, universe);
    assert(a.subset_of(b.remove(node)));
    vstd::set_lib::lemma_len_subset(a, b.remove(node));
}

/// What holds of the goals met so far: they are the goals among the visited
/// nodes, each once.
spec fn goals_of_visited<P: Searchable>(problem: &P, visited: Set<P::Node>, hits: Seq<P::Node>) -> bool {
    &&& hits.no_duplicates()
    &&& forall|s: P::Node| hits.contains(s) <==> visited.contains(s) && search_is_goal(problem, s)
}

/// Every node visited since `before` has all its successors in `after`.
spec fn new_nodes_are_closed<P: Searchable>(problem: &P, before: Set<P::Node>, after: Set<P::Node>) -> bool {
    forall|x: P::Node, y: P::Node|
        after.contains(x) && !before.contains(x) && #[trigger] search_successors(problem, x).contains(
            y,
        ) ==> after.contains(y)
}

/// Adding a goal that was not visited before keeps the list of goals right.
proof fn lemma_new_goal<P: Searchable>(
    problem: &P,
    visited: Set<P::Node>,
    hits: Seq<P::Node>,
    s: P::Node,
)
    requires
        goals_of_visited(problem, visited, hits),
        !visited.contains(s),
        search_is_goal(problem, s),
    ensures
        goals_of_visited(problem, visited.insert(s), hits.push(s)),
{
    let h2 = hits.push(s);
    assert forall|i: int, j: int| 0 <= i < h2.len() && 0 <= j < h2.len() && i != j implies h2[i]
        != h2[j] by {
        if i < hits.len() {
            assert(hits.contains(hits[i]));
        }
        if j < hits.len() {
            assert(hits.contains(hits[j]));
        }
    }
    assert forall|x: P::Node| h2.contains(x) <==> visited.insert(s).contains(x)
        && search_is_goal(problem, x) by {
        if h2.contains(x) {
            let i = choose|i: int| 0 <= i < h2.len() && h2[i] == x;
            if i < hits.len() {
                assert(hits.contains(x));
            }
        }
        if visited.insert(s).contains(x) && search_is_goal(problem, x) {
            if x == s {
                assert(h2[hits.len() as int] == x);
            } else {
                assert(hits.contains(x));
                let i = choose|i: int| 0 <= i < hits.len() && hits[i] == x;
                assert(h2[i] == x);
            }
        }
    }
}

/// Visiting a node that is no goal keeps the list of goals right.
proof fn lemma_no_goal<P: Searchable>(
    problem: &P,
    visited: Set<P::Node>,
    hits: Seq<P::Node>,
    s: P::Node,
)
    requires
        goals_of_visited(problem, visited, hits),
        !search_is_goal(problem, s),
    ensures
        goals_of_visited(problem, visited.insert(s), hits),
{
}

/// The walk below `current` for `search`. Returns whether the search is to
/// stop, and the goals met so far.
fn walk<P: Searchable>(
    current: &P::Node,
    visited: &mut FxHashSet<P::Node>,
    result: &mut Vec<P::Answer>,
    problem: &P,
    return_on_first: bool,
    Ghost(start): Ghost<P::Node>,
    Ghost(hits): Ghost<Seq<P::Node>>,
) -> (out: (bool, Ghost<Seq<P::Node>>))
    requires
        lawful_key::<P::Node>(),
        search_rules_are_functions(problem),
        reach_set(search_next(problem), seq![start]).finite(),
        reachable(search_next(problem), seq![start], *current),
        old(visited)@.subset_of(reach_set(search_next(problem), seq![start])),
        old(result)@ == collected(problem, hits),
        goals_of_visited(problem, old(visited)@, hits),
    ensures
        final(visited)@.subset_of(reach_set(search_next(problem), seq![start])),
        old(visited)@.subset_of(final(visited)@),
        final(visited)@.contains(*current),
        final(result)@ == collected(problem, out.1@),
        goals_of_visited(problem, final(visited)@, out.1@),
        out.1@.len() >= hits.len(),
        return_on_first ==> out.1@.len() <= hits.len() + 1,
        out.0 ==> return_on_first && out.1@.len() == hits.len() + 1,
        !out.0 ==> new_nodes_are_closed(problem, old(visited)@, final(visited)@),
        !out.0 && return_on_first ==> out.1@ == hits,
        ({
            let (met, vis) = search_visit(
                problem,
                reach_set(search_next(problem), seq![start]),
                *current,
                old(visited)@,
            );
            &&& !return_on_first || met.len() == 0 ==> !out.0 && out.1@ == hits + met && final(visited)@ == vis
            &&& return_on_first && met.len() > 0 ==> out.0 && out.1@ == hits.push(met[0])
        }),
    decreases reach_set(search_next(problem), seq![start]).len() - old(visited)@.len(),
{
    let ghost next = search_next(problem);
    let ghost universe = reach_set(next, seq![start]);
    let ghost visited0 = visited@;
    let ghost degree = search_successors(problem, *current).len();
    proof {
        vstd::set_lib::lemma_len_subset(visited0, universe);
    }
    let fresh = fx_set_insert(visited, current.clone());
    if !fresh {
        assert(visited@ =~= visited0);
        assert(hits + Seq::<P::Node>::empty() =~= hits);
        return (false, Ghost(hits));
    }
    let ghost visited1 = visited@;
    proof {
        vstd::set_lib::lemma_len_subset(visited1, universe);
        lemma_search_fold_grows(problem, universe, *current, visited0, 0, degree);
    }
    let mut hits_now = Ghost(hits);
    if problem.is_goal(current) {
        let a = problem.collect(current);
        result.push(a);
        proof {
            lemma_new_goal(problem, visited0, hits, *current);
            assert(collected(problem, hits.push(*current)) =~= collected(problem, hits).push(
                search_collect(problem, *current),
            ));
            hits_now@ = hits.push(*current);
            assert(hits.push(*current) =~= hits + seq![*current]);
        }
        if return_on_first {
            return (true, hits_now);
        }
    } else {
        assert(hits + Seq::<P::Node>::empty() =~= hits);
        proof {
            lemma_no_goal(problem, visited0, hits, *current);
        }
    }
    let ghost hits1 = hits_now@;
    let succs = problem.successors(current);
    let mut j: usize = 0;
    while j < succs.len()
        invariant
            lawful_key::<P::Node>(),
            search_rules_are_functions(problem),
            next == search_next(problem),
            universe == reach_set(next, seq![start]),
            universe.finite(),
            reachable(next, seq![start], *current),
            succs@ == search_successors(problem, *current),
            j <= succs.len(),
            visited1.subset_of(visited@),
            visited0 == old(visited)@,
            visited1 == visited0.insert(*current),
            visited1.len() == visited0.len() + 1,
            !visited0.contains(*current),
            visited0.subset_of(universe),
            visited@.subset_of(universe),
            result@ == collected(problem, hits_now@),
            goals_of_visited(problem, visited@, hits_now@),
            hits_now@.len() >= hits1.len(),
            hits1.len() >= hits.len(),
            return_on_first ==> hits_now@ == hits,
            new_nodes_are_closed(problem, visited1, visited@),
            forall|i: int| 0 <= i < j ==> visited@.contains(#[trigger] succs@[i]),
            degree == succs.len(),
            universe.contains(*current),
            hits_now@ == hits + search_fold(problem, universe, *current, visited0, j as nat).0,
            visited@ == search_fold(problem, universe, *current, visited0, j as nat).1,
        decreases succs.len() - j,
    {
        proof {
            assert(next(*current).contains(succs@[j as int]));
            lemma_step_reachable(next, seq![start], *current, succs@[j as int]);
            vstd::set_lib::lemma_len_subset(visited@, universe);
            vstd::set_lib::lemma_len_subset(visited1, visited@);
            lemma_left_to_visit(universe, visited0, visited@, *current);
            lemma_search_fold_grows(problem, universe, *current, visited0, (j + 1) as nat, degree);
        }
        let ghost before = visited@;
        let ghost so_far = search_fold(problem, universe, *current, visited0, j as nat).0;
        let ghost below = search_visit(problem, universe, succs@[j as int], before).0;
        let (stop, found) = walk(
            &succs[j],
            visited,
            result,
            problem,
            return_on_first,
            Ghost(start),
            hits_now,
        );
        proof {
            assert(search_fold(problem, universe, *current, visited0, (j + 1) as nat).0 == so_far
                + below);
            if return_on_first {
                assert(hits + so_far =~= hits);
                assert(so_far.len() == 0);
                assert(so_far + below =~= below);
            } else {
                assert(hits + (so_far + below) =~= (hits + so_far) + below);
            }
        }
        hits_now = found;
        if stop {
            assert(visited0.subset_of(visited@));
            return (true, hits_now);
        }
        proof {
            assert forall|x: P::Node, y: P::Node|
                visited@.contains(x) && !visited1.contains(x)
                    && #[trigger] search_successors(problem, x).contains(y) implies visited@.contains(
                y,
            ) by {
                if before.contains(x) {
                    assert(before.contains(y));
                }
            }
        }
        j += 1;
    }
    proof {
        assert forall|x: P::Node, y: P::Node|
            visited@.contains(x) && !visited0.contains(x)
                && #[trigger] search_successors(problem, x).contains(y) implies visited@.contains(
            y,
        ) by {
            if x == *current {
                let i = choose|i: int| 0 <= i < succs@.len() && succs@[i] == y;
                assert(visited@.contains(succs@[i]));
            }
        }
    }
    (false, hits_now)
}

/// The walk below `current` for `search_with_best`. Returns the goals met
/// so far.
fn walk_best<P: BestSearchable>(
    current: &P::Node,
    visited: &mut FxHashSet<P::Node>,
    best: &mut Option<P::Answer>,
    problem: &P,
    Ghost(start): Ghost<P::Node>,
    Ghost(hits): Ghost<Seq<P::Node>>,
) -> (out: Ghost<Seq<P::Node>>)
    requires
        lawful_key::<P::Node>(),
        search_rules_are_functions(problem),
        better_is_function(problem),
        reach_set(search_next(problem), seq![start]).finite(),
        reachable(search_next(problem), seq![start], *current),
        old(visited)@.subset_of(reach_set(search_next(problem), seq![start])),
        *old(best) == best_of(problem, hits),
        goals_of_visited(problem, old(visited)@, hits),
    ensures
        final(visited)@.subset_of(reach_set(search_next(problem), seq![start])),
        old(visited)@.subset_of(final(visited)@),
        final(visited)@.contains(*current),
        *final(best) == best_of(problem, out@),
        goals_of_visited(problem, final(visited)@, out@),
        new_nodes_are_closed(problem, old(visited)@, final(visited)@),
        out@ == hits + search_visit(
            problem,
            reach_set(search_next(problem), seq![start]),
            *current,
            old(visited)@,
        ).0,
        final(visited)@ == search_visit(
            problem,
            reach_set(search_next(problem), seq![start]),
            *current,
            old(visited)@,
        ).1,
    decreases reach_set(search_next(problem), seq![start]).len() - old(visited)@.len(),
{
    let ghost next = search_next(problem);
    let ghost universe = reach_set(next, seq![start]);
    let ghost visited0 = visited@;
    proof {
        vstd::set_lib::lemma_len_subset(visited0, universe);
    }
    let fresh = fx_set_insert(visited, current.clone());
    if !fresh {
        assert(visited@ =~= visited0);
        assert(hits + Seq::<P::Node>::empty() =~= hits);
        return Ghost(hits);
    }
    let ghost visited1 = visited@;
    proof {
        vstd::set_lib::lemma_len_subset(visited1, universe);
    }
    let mut hits_now = Ghost(hits);
    if problem.is_goal(current) {
        let val = problem.collect(current);
        let replace = match best {
            None => true,
            Some(b) => problem.is_better(&val, b),
        };
        proof {
            lemma_new_goal(problem, visited0, hits, *current);
            assert(hits.push(*current).drop_last() =~= hits);
            hits_now@ = hits.push(*current);
            assert(hits.push(*current) =~= hits + seq![*current]);
        }
        if replace {
            *best = Some(val);
        }
    } else {
        proof {
            lemma_no_goal(problem, visited0, hits, *current);
            assert(hits + Seq::<P::Node>::empty() =~= hits);
        }
    }
    let succs = problem.successors(current);
    let mut j: usize = 0;
    while j < succs.len()
        invariant
            lawful_key::<P::Node>(),
            search_rules_are_functions(problem),
            next == search_next(problem),
            universe == reach_set(next, seq![start]),
            universe.finite(),
            reachable(next, seq![start], *current),
            succs@ == search_successors(problem, *current),
            j <= succs.len(),
            visited1.subset_of(visited@),
            visited0 == old(visited)@,
            visited1 == visited0.insert(*current),
            visited1.len() == visited0.len() + 1,
            !visited0.contains(*current),
            visited0.subset_of(universe),
            visited@.subset_of(universe),
            better_is_function(problem),
            *best == best_of(problem, hits_now@),
            goals_of_visited(problem, visited@, hits_now@),
            new_nodes_are_closed(problem, visited1, visited@),
            forall|i: int| 0 <= i < j ==> visited@.contains(#[trigger] succs@[i]),
            universe.contains(*current),
            hits_now@ == hits + search_fold(problem, universe, *current, visited0, j as nat).0,
            visited@ == search_fold(problem, universe, *current, visited0, j as nat).1,
        decreases succs.len() - j,
    {
        proof {
            assert(next(*current).contains(succs@[j as int]));
            lemma_step_reachable(next, seq![start], *current, succs@[j as int]);
            vstd::set_lib::lemma_len_subset(visited@, universe);
            vstd::set_lib::lemma_len_subset(visited1, visited@);
            lemma_left_to_visit(universe, visited0, visited@, *current);
        }
        let ghost before = visited@;
        let ghost so_far = search_fold(problem, universe, *current, visited0, j as nat).0;
        let ghost below = search_visit(problem, universe, succs@[j as int], before).0;
        proof {
            assert(hits + (so_far + below) =~= (hits + so_far) + below);
        }
        hits_now = walk_best(&succs[j], visited, best, problem, Ghost(start), hits_now);
        proof {
            assert forall|x: P::Node, y: P::Node|
                visited@.contains(x) && !visited1.contains(x)
                    && #[trigger] search_successors(problem, x).contains(y) implies visited@.contains(
                y,
            ) by {
                if before.contains(x) {
                    assert(before.contains(y));
                }
            }
        }
        j += 1;
    }
    proof {
        assert forall|x: P::Node, y: P::Node|
            visited@.contains(x) && !visited0.contains(x)
                && #[trigger] search_successors(problem, x).contains(y) implies visited@.contains(
            y,
        ) by {
            if x == *current {
                let i = choose|i: int| 0 <= i < succs@.len() && succs@[i] == y;
                assert(visited@.contains(succs@[i]));
            }
        }
    }
    hits_now
}

/// After a walk from `start` that ran to its end, the visited nodes are the
/// reachable ones.
proof fn lemma_walk_covers<P: Searchable>(problem: &P, start: P::Node, visited: Set<P::Node>)
    requires
        visited.subset_of(reach_set(search_next(problem), seq![start])),
        visited.contains(start),
        new_nodes_are_closed(problem, Set::empty(), visited),
    ensures
        forall|s: P::Node| visited.contains(s) <==> reachable(search_next(problem), seq![start], s),
{
    let next = search_next(problem);
    assert forall|r: P::Node| seq![start].contains(r) implies visited.contains(r) by {
        let i = choose|i: int| 0 <= i < seq![start].len() && seq![start][i] == r;
    }
    assert forall|s: P::Node, t: P::Node| visited.contains(s) && #[trigger] next(s).contains(
        t,
    ) implies visited.contains(t) by {
        assert(search_successors(problem, s).contains(t));
    }
    lemma_closed_set_covers(next, seq![start], visited);
    assert forall|s: P::Node| visited.contains(s) implies reachable(next, seq![start], s) by {
        assert(reach_set(next, seq![start]).contains(s));
    }
}

pub struct MemoizedDFS;

impl MemoizedDFS {
    /// Searches from `start` and collects from the goals.
    ///
    /// Without `return_on_first`, the result holds what is collected from
    /// every goal that can be reached, once for each, in the order in which
    /// a depth-first walk meets them. With it, the result holds what is
    /// collected from the first of them, or nothing where no goal can be
    /// reached.
    pub fn search<P: Searchable>(start: P::Node, problem: &P, return_on_first: bool) -> (result: Vec<
        P::Answer,
    >)
        requires
            lawful_key::<P::Node>(),
            search_rules_are_functions(problem),
            reach_set(search_next(problem), seq![start]).finite(),
        ensures
            result@ == collected(
                problem,
                if return_on_first {
                    first_of(goals_in_order(problem, start))
                } else {
                    goals_in_order(problem, start)
                },
            ),
            !return_on_first ==> lists_goals(problem, start, goals_in_order(problem, start)),
            return_on_first ==> result@.len() <= 1,
            return_on_first && result@.len() == 0 ==> forall|s: P::Node|
                !is_reachable_goal(problem, start, s),
            return_on_first && result@.len() == 1 ==> exists|g: P::Node| #[trigger]
                is_reachable_goal(problem, start, g) && result@[0] == search_collect(problem, g),
    {
        let ghost next = search_next(problem);
        let mut visited: FxHashSet<P::Node> = FxHashSet::default();
        let mut result: Vec<P::Answer> = Vec::new();
        proof {
            assert(seq![start][0] == start);
            lemma_root_reachable(next, seq![start], start);
            assert(result@ =~= collected(problem, Seq::<P::Node>::empty()));
        }
        let (stop, found) = walk(
            &start,
            &mut visited,
            &mut result,
            problem,
            return_on_first,
            Ghost(start),
            Ghost(Seq::empty()),
        );
        proof {
            let hits = found@;
            let met = goals_in_order(problem, start);
            assert(Seq::<P::Node>::empty() + met =~= met);
            assert(Seq::<P::Node>::empty().push(met[0]) =~= seq![met[0]]);
            if stop {
                let g = hits[0];
                assert(hits.contains(g));
                assert(reach_set(next, seq![start]).contains(g));
                assert(is_reachable_goal(problem, start, g));
            } else {
                lemma_walk_covers(problem, start, visited@);
                assert(lists_goals(problem, start, hits));
                if return_on_first {
                    assert forall|s: P::Node| !is_reachable_goal(problem, start, s) by {
                        if is_reachable_goal(problem, start, s) {
                            assert(hits.contains(s));
                        }
                    }
                }
            }
        }
        result
    }

    /// Searches from `start` for the best goal.
    ///
    /// The result is `None` where no goal can be reached. Else it is the
    /// best of what is collected from the reachable goals, each taken once,
    /// in the order in which the walk meets them.
    pub fn search_with_best<P: BestSearchable>(start: P::Node, problem: &P) -> (best: Option<
        P::Answer,
    >)
        requires
            lawful_key::<P::Node>(),
            search_rules_are_functions(problem),
            better_is_function(problem),
            reach_set(search_next(problem), seq![start]).finite(),
        ensures
            best == best_of(problem, goals_in_order(problem, start)),
            lists_goals(problem, start, goals_in_order(problem, start)),
            best is None <==> forall|s: P::Node| !is_reachable_goal(problem, start, s),
    {
        let ghost next = search_next(problem);
        let mut visited: FxHashSet<P::Node> = FxHashSet::default();
        let mut best: Option<P::Answer> = None;
        proof {
            assert(seq![start][0] == start);
            lemma_root_reachable(next, seq![start], start);
        }
        let found = walk_best(
            &start,
            &mut visited,
            &mut best,
            problem,
            Ghost(start),
            Ghost(Seq::empty()),
        );
        proof {
            let hits = found@;
            assert(Seq::<P::Node>::empty() + goals_in_order(problem, start) =~= goals_in_order(
                problem,
                start,
            ));
            lemma_walk_covers(problem, start, visited@);
            assert(lists_goals(problem, start, hits));
            if hits.len() > 0 {
                assert(hits.contains(hits[0]));
            } else {
                assert forall|s: P::Node| !is_reachable_goal(problem, start, s) by {
                    if is_reachable_goal(problem, start, s) {
                        assert(hits.contains(s));
                    }
                }
            }
        }
        best
    }
}

} // verus!
