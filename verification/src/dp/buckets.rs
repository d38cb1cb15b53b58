//! Rank buckets: the found states grouped by rank, and read out again with
//! the lowest rank first.
//!
//! A state joins the bucket of its rank at the end, so within a bucket the
//! states stay in the order in which they were found.

use super::discovery::{is_schedule, lists_reachable, rank_sorted, reachable, states_of};
use crate::values::clone_is_exact;
use std::collections::BTreeMap;
use vstd::prelude::*;
use vstd::std_specs::btree::{axiom_increasing_seq_meaning, axiom_spec_btree_map_iter, increasing_seq};
use vstd::std_specs::cmp::OrdSpec;

verus! {

broadcast use {vstd::std_specs::btree::group_btree_axioms, vstd::laws_cmp::group_laws_cmp};

/// The states of rank `r` in `found`, in the order in which `found` lists
/// them.
pub open spec fn bucket_of<S>(found: Seq<(usize, S)>, r: usize) -> Seq<S>
    decreases found.len(),
{
    if found.len() == 0 {
        Seq::empty()
    } else {
        let rest = bucket_of(found.drop_last(), r);
        if found.last().0 == r {
            rest.push(found.last().1)
        } else {
            rest
        }
    }
}

/// `order` is `found` read out of its rank buckets: ranks never fall along
/// it, and for every rank it lists the states that `found` lists, in the
/// same order.
pub open spec fn is_bucketed<S>(found: Seq<(usize, S)>, order: Seq<(usize, S)>) -> bool {
    &&& rank_sorted(order)
    &&& forall|r: usize| #[trigger] bucket_of(order, r) == bucket_of(found, r)
}

/// What one more entry does to the buckets of a list.
pub proof fn lemma_bucket_push<S>(found: Seq<(usize, S)>, r: usize, s: S, q: usize)
    ensures
        bucket_of(found.push((r, s)), q) == if q == r {
            bucket_of(found, q).push(s)
        } else {
            bucket_of(found, q)
        },
{
    assert(found.push((r, s)).drop_last() =~= found);
}

/// A bucket holds a state exactly if the list holds the state with the
/// bucket's rank.
pub proof fn lemma_bucket_members<S>(found: Seq<(usize, S)>, r: usize, s: S)
    ensures
        bucket_of(found, r).contains(s) <==> found.contains((r, s)),
    decreases found.len(),
{
    if found.len() > 0 {
        let front = found.drop_last();
        lemma_bucket_members(front, r, s);
        let rest = bucket_of(front, r);
        if found.contains((r, s)) {
            let i = choose|i: int| 0 <= i < found.len() && found[i] == (r, s);
            if i < front.len() {
                assert(front[i] == (r, s));
                let j = choose|j: int| 0 <= j < rest.len() && rest[j] == s;
                assert(bucket_of(found, r)[j] == s);
            } else {
                assert(found.last() == (r, s));
                assert(bucket_of(found, r)[rest.len() as int] == s);
            }
        }
        if bucket_of(found, r).contains(s) {
            let j = choose|j: int| 0 <= j < bucket_of(found, r).len() && bucket_of(found, r)[j] == s;
            if j < rest.len() {
                assert(rest[j] == s);
                let i = choose|i: int| 0 <= i < front.len() && front[i] == (r, s);
                assert(found[i] == (r, s));
            } else {
                assert(found[found.len() - 1] == (r, s));
            }
        }
    }
}

/// Where no state is listed twice, no bucket holds a state twice.
pub proof fn lemma_bucket_distinct<S>(found: Seq<(usize, S)>, r: usize)
    requires
        states_of(found).no_duplicates(),
    ensures
        bucket_of(found, r).no_duplicates(),
    decreases found.len(),
{
    if found.len() > 0 {
        let front = found.drop_last();
        assert forall|i: int, j: int| 0 <= i < front.len() && 0 <= j < front.len() && i != j implies states_of(
            front,
        )[i] != states_of(front)[j] by {
            assert(states_of(found)[i] == found[i].1);
            assert(states_of(found)[j] == found[j].1);
        }
        lemma_bucket_distinct(front, r);
        let rest = bucket_of(front, r);
        let (q, s) = found.last();
        if q == r {
            if rest.contains(s) {
                lemma_bucket_members(front, r, s);
                let i = choose|i: int| 0 <= i < front.len() && front[i] == (r, s);
                assert(states_of(found)[i] == s);
                assert(states_of(found)[found.len() - 1] == s);
            }
            assert forall|i: int, j: int|
                0 <= i < rest.push(s).len() && 0 <= j < rest.push(s).len() && i != j implies rest.push(
                s,
            )[i] != rest.push(s)[j] by {
                if i < rest.len() && j < rest.len() {
                } else if i < rest.len() {
                    assert(rest.contains(rest[i]));
                } else {
                    assert(rest.contains(rest[j]));
                }
            }
        }
    }
}

/// A list that holds an entry at two places holds its state twice in the
/// bucket of its rank.
pub proof fn lemma_bucket_repeats<S>(order: Seq<(usize, S)>, a: int, b: int)
    requires
        0 <= a < b < order.len(),
        order[a] == order[b],
    ensures
        !bucket_of(order, order[a].0).no_duplicates(),
    decreases order.len(),
{
    let (r, s) = order[a];
    let front = order.drop_last();
    let rest = bucket_of(front, r);
    if b < order.len() - 1 {
        assert(front[a] == order[a] && front[b] == order[b]);
        lemma_bucket_repeats(front, a, b);
        if order.last().0 == r {
            let i = choose|i: int, j: int| 0 <= i < rest.len() && 0 <= j < rest.len() && i != j && rest[i] == rest[j];
            assert(bucket_of(order, r)[i.0] == bucket_of(order, r)[i.1]);
        }
    } else {
        assert(order.last() == (r, s));
        assert(front[a] == (r, s));
        assert(front.contains((r, s)));
        lemma_bucket_members(front, r, s);
        let i = choose|i: int| 0 <= i < rest.len() && rest[i] == s;
        assert(bucket_of(order, r)[i] == s);
        assert(bucket_of(order, r)[rest.len() as int] == s);
    }
}

/// Reading a list of found states out of its rank buckets keeps what the
/// list lists, and makes it a schedule.
pub proof fn lemma_buckets_keep_listing<S>(
    next: spec_fn(S) -> Seq<S>,
    rank: spec_fn(S) -> nat,
    roots: Seq<S>,
    found: Seq<(usize, S)>,
    order: Seq<(usize, S)>,
)
    requires
        lists_reachable(next, rank, roots, found),
        is_bucketed(found, order),
    ensures
        is_schedule(next, rank, roots, order),
{
    let sf = states_of(found);
    let so = states_of(order);
    assert forall|i: int| 0 <= i < order.len() implies found.contains(#[trigger] order[i]) by {
        let (r, s) = order[i];
        assert(order.contains((r, s)));
        lemma_bucket_members(order, r, s);
        assert(bucket_of(order, r) == bucket_of(found, r));
        lemma_bucket_members(found, r, s);
    }
    assert forall|i: int| 0 <= i < order.len() implies (#[trigger] order[i]).0 == rank(order[i].1) by {
        assert(found.contains(order[i]));
        let m = choose|m: int| 0 <= m < found.len() && found[m] == order[i];
        assert(found[m].0 == rank(found[m].1));
    }
    assert forall|s: S| so.contains(s) <==> reachable(next, roots, s) by {
        if so.contains(s) {
            let i = choose|i: int| 0 <= i < so.len() && so[i] == s;
            assert(found.contains(order[i]));
            let m = choose|m: int| 0 <= m < found.len() && found[m] == order[i];
            assert(sf[m] == s);
            assert(sf.contains(s));
        }
        if reachable(next, roots, s) {
            assert(sf.contains(s));
            let m = choose|m: int| 0 <= m < sf.len() && sf[m] == s;
            let r = found[m].0;
            assert(found[m] == (r, s));
            assert(found.contains((r, s)));
            lemma_bucket_members(found, r, s);
            assert(bucket_of(order, r) == bucket_of(found, r));
            lemma_bucket_members(order, r, s);
            let i = choose|i: int| 0 <= i < order.len() && order[i] == (r, s);
            assert(so[i] == s);
        }
    }
    assert forall|a: int, b: int| 0 <= a < so.len() && 0 <= b < so.len() && a != b implies so[a]
        != so[b] by {
        if so[a] == so[b] {
            assert(order[a].0 == rank(order[a].1));
            assert(order[b].0 == rank(order[b].1));
            assert(order[a] == order[b]);
            let r = order[a].0;
            if a < b {
                lemma_bucket_repeats(order, a, b);
            } else {
                lemma_bucket_repeats(order, b, a);
            }
            assert(bucket_of(order, r) == bucket_of(found, r));
            lemma_bucket_distinct(found, r);
        }
    }
}

/// The buckets hold the first `i` entries of `found`: for every rank that
/// occurs among them, its states in the order in which `found` lists them.
pub open spec fn holds_prefix<S>(buckets: Map<usize, Vec<S>>, found: Seq<(usize, S)>, i: int) -> bool {
    &&& forall|r: usize| #[trigger] buckets.contains_key(r) <==> bucket_of(found.take(i), r).len() > 0
    &&& forall|r: usize| #[trigger] buckets.contains_key(r) ==> buckets[r]@ == bucket_of(found.take(i), r)
}

/// Puts every found state into the bucket of its rank, at the end.
fn fill_buckets<S: Clone>(found: &Vec<(usize, S)>) -> (buckets: BTreeMap<usize, Vec<S>>)
    requires
        clone_is_exact::<S>(),
    ensures
        holds_prefix(buckets@, found@, found@.len() as int),
{
    let mut buckets: BTreeMap<usize, Vec<S>> = BTreeMap::new();
    let mut i: usize = 0;
    assert(found@.take(0) =~= Seq::<(usize, S)>::empty());
    while i < found.len()
        invariant
            clone_is_exact::<S>(),
            i <= found.len(),
            holds_prefix(buckets@, found@, i as int),
        decreases found.len() - i,
    {
        let r = found[i].0;
        let s = found[i].1.clone();
        let ghost before = buckets@;
        let ghost prefix = found@.take(i as int);
        let mut bucket = match buckets.remove(&r) {
            Some(b) => b,
            None => Vec::new(),
        };
        assert(bucket@ == bucket_of(prefix, r));
        bucket.push(s);
        buckets.insert(r, bucket);
        proof {
            assert(found@.take(i + 1) =~= prefix.push((r, s)));
            assert forall|q: usize| #[trigger]
                buckets@.contains_key(q) <==> bucket_of(found@.take(i + 1), q).len() > 0 by {
                lemma_bucket_push(prefix, r, s, q);
                assert(before.contains_key(q) <==> bucket_of(prefix, q).len() > 0);
            }
            assert forall|q: usize| #[trigger] buckets@.contains_key(q) implies buckets@[q]@
                == bucket_of(found@.take(i + 1), q) by {
                lemma_bucket_push(prefix, r, s, q);
                if q != r {
                    assert(before.contains_key(q));
                }
            }
        }
        i += 1;
    }
    assert(found@.take(found@.len() as int) =~= found@);
    buckets
}

/// The keys of the entries of a map, in the order in which it yields them.
pub open spec fn keys_of<S>(all: Seq<(&usize, &Vec<S>)>) -> Seq<usize> {
    all.map_values(|kv: (&usize, &Vec<S>)| *kv.0)
}

/// Where the keys ascend, an earlier key is the smaller one.
pub proof fn lemma_keys_ascend<S>(all: Seq<(&usize, &Vec<S>)>, t: int, i: int)
    requires
        increasing_seq(keys_of(all)),
        0 <= t < i < all.len(),
    ensures
        *all[t].0 < *all[i].0,
{
    assert(vstd::laws_cmp::obeys_cmp::<usize>());
    axiom_increasing_seq_meaning::<usize>(keys_of(all));
    assert(keys_of(all)[t] == *all[t].0);
    assert(keys_of(all)[i] == *all[i].0);
    assert(keys_of(all)[t].cmp_spec(&keys_of(all)[i]) is Less);
}

/// Reads the buckets out, lowest rank first, each from its first state to
/// its last.
fn read_buckets<S: Clone>(buckets: &BTreeMap<usize, Vec<S>>) -> (order: Vec<(usize, S)>)
    requires
        clone_is_exact::<S>(),
    ensures
        rank_sorted(order@),
        forall|r: usize|
            #[trigger] bucket_of(order@, r) == if buckets@.contains_key(r) {
                buckets@[r]@
            } else {
                Seq::<S>::empty()
            },
{
    let mut order: Vec<(usize, S)> = Vec::new();
    proof {
        axiom_spec_btree_map_iter(buckets);
    }
    for kv in it: buckets.iter()
        invariant
            clone_is_exact::<S>(),
            increasing_seq(keys_of(it.seq())),
            forall|i: int|
                0 <= i < it.seq().len() ==> buckets@.contains_key(*(#[trigger] it.seq()[i]).0)
                    && buckets@[*it.seq()[i].0] == *it.seq()[i].1,
            forall|k: usize| #[trigger]
                buckets@.contains_key(k) ==> it.seq().contains((&k, &buckets@[k])),
            rank_sorted(order@),
            forall|m: int, i: int|
                0 <= m < order@.len() && it.index() <= i < it.seq().len() ==> (#[trigger] order@[m]).0
                    < *(#[trigger] it.seq()[i]).0,
            forall|i: int|
                0 <= i < it.index() ==> bucket_of(order@, *(#[trigger] it.seq()[i]).0)
                    == buckets@[*it.seq()[i].0]@,
            forall|i: int|
                it.index() <= i < it.seq().len() ==> bucket_of(order@, *(#[trigger] it.seq()[i]).0)
                    == Seq::<S>::empty(),
            forall|r: usize| !buckets@.contains_key(r) ==> #[trigger] bucket_of(order@, r) == Seq::<S>::empty(),
        ensures
            rank_sorted(order@),
            forall|r: usize|
                #[trigger] bucket_of(order@, r) == if buckets@.contains_key(r) {
                    buckets@[r]@
                } else {
                    Seq::<S>::empty()
                },
    {
        let r = *kv.0;
        let bucket = kv.1;
        let ghost all = it.seq();
        let ghost t = it.index();
        let ghost start = order@;
        proof {
            assert(kv == all[t]);
            assert forall|i: int| 0 <= i < all.len() && i != t implies *(#[trigger] all[i]).0 != r by {
                if i < t {
                    lemma_keys_ascend(all, i, t);
                } else {
                    lemma_keys_ascend(all, t, i);
                }
            }
            assert forall|i: int| t < i < all.len() implies r < *(#[trigger] all[i]).0 by {
                lemma_keys_ascend(all, t, i);
            }
            assert(bucket_of(start, *all[t].0) == Seq::<S>::empty());
        }
        let mut j: usize = 0;
        while j < bucket.len()
            invariant
                clone_is_exact::<S>(),
                j <= bucket.len(),
                0 <= t < all.len(),
                all[t] == (&r, bucket),
                buckets@.contains_key(r),
                buckets@[r] == *bucket,
                rank_sorted(order@),
                forall|m: int| 0 <= m < order@.len() ==> (#[trigger] order@[m]).0 <= r,
                forall|i: int| t < i < all.len() ==> r < *(#[trigger] all[i]).0,
                bucket_of(order@, r) == bucket@.take(j as int),
                forall|q: usize| q != r ==> #[trigger] bucket_of(order@, q) == bucket_of(start, q),
            decreases bucket.len() - j,
        {
            let ghost so_far = order@;
            let s = bucket[j].clone();
            order.push((r, s));
            proof {
                assert(bucket@.take(j + 1) =~= bucket@.take(j as int).push(s));
                assert forall|q: usize| q != r implies #[trigger] bucket_of(order@, q) == bucket_of(
                    start,
                    q,
                ) by {
                    lemma_bucket_push(so_far, r, s, q);
                }
                lemma_bucket_push(so_far, r, s, r);
            }
            j += 1;
        }
        proof {
            assert(bucket@.take(bucket@.len() as int) =~= bucket@);
            assert forall|i: int| 0 <= i < t + 1 implies bucket_of(order@, *(#[trigger] all[i]).0)
                == buckets@[*all[i].0]@ by {
                if i < t {
                    assert(bucket_of(order@, *all[i].0) == bucket_of(start, *all[i].0));
                }
            }
            assert forall|i: int| t + 1 <= i < all.len() implies bucket_of(order@, *(#[trigger] all[i]).0)
                == Seq::<S>::empty() by {
                assert(bucket_of(order@, *all[i].0) == bucket_of(start, *all[i].0));
            }
            assert forall|q: usize| !buckets@.contains_key(q) implies #[trigger] bucket_of(order@, q)
                == Seq::<S>::empty() by {
                assert(bucket_of(order@, q) == bucket_of(start, q));
            }
        }
    }
    order
}

/// Groups the found states by rank and reads the groups out, lowest rank
/// first. States of one rank stay in the order in which they were found.
pub(crate) fn schedule_by_rank<S: Clone>(found: &Vec<(usize, S)>) -> (order: Vec<(usize, S)>)
    requires
        clone_is_exact::<S>(),
    ensures
        is_bucketed(found@, order@),
{
    let buckets = fill_buckets(found);
    let order = read_buckets(&buckets);
    proof {
        assert(found@.take(found@.len() as int) =~= found@);
        assert forall|r: usize| #[trigger] bucket_of(order@, r) == bucket_of(found@, r) by {
            if !buckets@.contains_key(r) {
                assert(bucket_of(found@, r).len() == 0);
                assert(bucket_of(found@, r) =~= Seq::<S>::empty());
            }
        }
    }
    order
}

} // verus!
