//! What a whole run of unions leaves behind.
//!
//! A union-find that was created with `n` elements and then united along a
//! list of pairs holds the representatives `roots_after(n, pairs)`: `new`
//! gives those of the empty list, and each `unite` adds a pair at the end.
//! Two elements then share a representative exactly if a chain of pairs
//! links them, and the sizes of the sets add up to `n`.

use crate::union_find::{class, lemma_class_bounded, lemma_root_facts, united_roots, UnionFind};
use vstd::prelude::*;

verus! {

/// Every element its own representative.
pub open spec fn singletons(n: nat) -> Seq<int> {
    Seq::new(n, |i: int| i)
}

/// The representatives after `n` sets of one element each have been united
/// along `pairs`, one pair after the other.
pub open spec fn roots_after(n: nat, pairs: Seq<(int, int)>) -> Seq<int>
    decreases pairs.len(),
{
    if pairs.len() == 0 {
        singletons(n)
    } else {
        united_roots(roots_after(n, pairs.drop_last()), pairs.last().0, pairs.last().1)
    }
}

/// Every pair names two of `n` elements.
pub open spec fn pairs_within(n: nat, pairs: Seq<(int, int)>) -> bool {
    forall|i: int| 0 <= i < pairs.len() ==> 0 <= (#[trigger] pairs[i]).0 < n && 0 <= pairs[i].1 < n
}

/// One of the pairs joins `a` and `b`, in this order or the other.
pub open spec fn is_link(pairs: Seq<(int, int)>, a: int, b: int) -> bool {
    exists|i: int| 0 <= i < pairs.len() && (#[trigger] pairs[i] == (a, b) || pairs[i] == (b, a))
}

/// Each element of `chain` is joined to the next by one of the pairs.
pub open spec fn is_chain(pairs: Seq<(int, int)>, chain: Seq<int>) -> bool {
    &&& chain.len() > 0
    &&& forall|i: int| 0 <= i < chain.len() - 1 ==> is_link(pairs, #[trigger] chain[i], chain[i + 1])
}

/// `x` and `y` are related by the smallest equivalence that holds the
/// pairs: a chain of pairs leads from one to the other.
pub open spec fn linked(pairs: Seq<(int, int)>, x: int, y: int) -> bool {
    exists|chain: Seq<int>| #[trigger] is_chain(pairs, chain) && chain[0] == x && chain.last() == y
}

/// A union-find in which every element is its own representative holds
/// the representatives of the empty run: so it is after `new`.
pub proof fn lemma_fresh_roots(uf: &UnionFind)
    requires
        uf.wf(),
        forall|x: int| 0 <= x < uf.len() ==> #[trigger] uf.root(x) == x,
    ensures
        uf.roots() == roots_after(uf.len(), Seq::empty()),
{
    crate::union_find::lemma_roots_len(uf);
    assert forall|x: int| 0 <= x < uf.len() implies uf.roots()[x] == singletons(uf.len())[x] by {
        assert(uf.root(x) == x);
    }
    assert(uf.roots() =~= singletons(uf.len()));
}

/// One more union adds its pair at the end of the run: so it is after
/// `unite`.
pub proof fn lemma_one_more_union(n: nat, pairs: Seq<(int, int)>, x: int, y: int)
    ensures
        roots_after(n, pairs.push((x, y))) == united_roots(roots_after(n, pairs), x, y),
{
    assert(pairs.push((x, y)).drop_last() =~= pairs);
}

/// What a union does to the representatives: two elements share one
/// afterwards exactly if they did before, or if one was with `x` and the
/// other with `y`.
pub proof fn lemma_united_relation(rep: Seq<int>, x: int, y: int, a: int, b: int)
    requires
        0 <= x < rep.len(),
        0 <= y < rep.len(),
        0 <= a < rep.len(),
        0 <= b < rep.len(),
    ensures
        united_roots(rep, x, y).len() == rep.len(),
        united_roots(rep, x, y)[a] == united_roots(rep, x, y)[b] <==> rep[a] == rep[b] || (rep[a]
            == rep[x] && rep[b] == rep[y]) || (rep[a] == rep[y] && rep[b] == rep[x]),
{
}

/// There is a representative for each of the `n` elements.
pub proof fn lemma_roots_after_len(n: nat, pairs: Seq<(int, int)>)
    requires
        pairs_within(n, pairs),
    ensures
        roots_after(n, pairs).len() == n,
    decreases pairs.len(),
{
    if pairs.len() > 0 {
        let front = pairs.drop_last();
        assert forall|i: int| 0 <= i < front.len() implies 0 <= (#[trigger] front[i]).0 < n && 0
            <= front[i].1 < n by {
            assert(front[i] == pairs[i]);
        }
        lemma_roots_after_len(n, front);
        let (x, y) = pairs.last();
        assert(pairs[pairs.len() - 1] == pairs.last());
        lemma_united_relation(roots_after(n, front), x, y, x, y);
    }
}

/// What one more pair does to the representatives.
pub proof fn lemma_roots_after_step(n: nat, pairs: Seq<(int, int)>, a: int, b: int)
    requires
        pairs_within(n, pairs),
        pairs.len() > 0,
        0 <= a < n,
        0 <= b < n,
    ensures
        pairs_within(n, pairs.drop_last()),
        roots_after(n, pairs.drop_last()).len() == n,
        ({
            let before = roots_after(n, pairs.drop_last());
            let (x, y) = pairs.last();
            &&& 0 <= x < n
            &&& 0 <= y < n
            &&& roots_after(n, pairs)[a] == roots_after(n, pairs)[b] <==> before[a] == before[b] || (
            before[a] == before[x] && before[b] == before[y]) || (before[a] == before[y] && before[b]
                == before[x])
        }),
{
    let front = pairs.drop_last();
    assert forall|i: int| 0 <= i < front.len() implies 0 <= (#[trigger] front[i]).0 < n && 0
        <= front[i].1 < n by {
        assert(front[i] == pairs[i]);
    }
    lemma_roots_after_len(n, front);
    let (x, y) = pairs.last();
    assert(pairs[pairs.len() - 1] == pairs.last());
    lemma_united_relation(roots_after(n, front), x, y, a, b);
}

/// Two elements that a pair joins share a representative.
pub proof fn lemma_link_shares(n: nat, pairs: Seq<(int, int)>, a: int, b: int)
    requires
        pairs_within(n, pairs),
        is_link(pairs, a, b),
    ensures
        0 <= a < n,
        0 <= b < n,
        roots_after(n, pairs)[a] == roots_after(n, pairs)[b],
    decreases pairs.len(),
{
    let i = choose|i: int| 0 <= i < pairs.len() && (#[trigger] pairs[i] == (a, b) || pairs[i] == (b, a));
    assert(0 <= pairs[i].0 < n && 0 <= pairs[i].1 < n);
    lemma_roots_after_step(n, pairs, a, b);
    if i < pairs.len() - 1 {
        let front = pairs.drop_last();
        assert(front[i] == pairs[i]);
        assert(is_link(front, a, b));
        lemma_link_shares(n, front, a, b);
    }
}

/// The elements of a chain are elements, and all share a representative.
pub proof fn lemma_chain_shares(n: nat, pairs: Seq<(int, int)>, chain: Seq<int>, i: int)
    requires
        pairs_within(n, pairs),
        is_chain(pairs, chain),
        0 <= chain[0] < n,
        0 <= i < chain.len(),
    ensures
        0 <= chain[i] < n,
        roots_after(n, pairs)[chain[0]] == roots_after(n, pairs)[chain[i]],
    decreases i,
{
    if i > 0 {
        lemma_chain_shares(n, pairs, chain, i - 1);
        assert(is_link(pairs, chain[i - 1], chain[i]));
        lemma_link_shares(n, pairs, chain[i - 1], chain[i]);
    }
}

/// A chain of some of the pairs is a chain of all of them.
pub proof fn lemma_linked_grows(pairs: Seq<(int, int)>, x: int, y: int)
    requires
        pairs.len() > 0,
        linked(pairs.drop_last(), x, y),
    ensures
        linked(pairs, x, y),
{
    let front = pairs.drop_last();
    let chain = choose|chain: Seq<int>| #[trigger]
        is_chain(front, chain) && chain[0] == x && chain.last() == y;
    assert forall|i: int| 0 <= i < chain.len() - 1 implies is_link(pairs, #[trigger] chain[i], chain[i + 1]) by {
        assert(is_link(front, chain[i], chain[i + 1]));
        let k = choose|k: int|
            0 <= k < front.len() && (#[trigger] front[k] == (chain[i], chain[i + 1]) || front[k] == (
                chain[i + 1],
                chain[i],
            ));
        assert(pairs[k] == front[k]);
    }
    assert(is_chain(pairs, chain));
}

/// A chain to `a`, a pair that joins `a` and `b`, and a chain from `b` make
/// one chain.
pub proof fn lemma_linked_through(pairs: Seq<(int, int)>, x: int, a: int, b: int, y: int)
    requires
        linked(pairs, x, a),
        is_link(pairs, a, b),
        linked(pairs, b, y),
    ensures
        linked(pairs, x, y),
{
    let first = choose|chain: Seq<int>| #[trigger]
        is_chain(pairs, chain) && chain[0] == x && chain.last() == a;
    let second = choose|chain: Seq<int>| #[trigger]
        is_chain(pairs, chain) && chain[0] == b && chain.last() == y;
    let whole = first + second;
    assert forall|i: int| 0 <= i < whole.len() - 1 implies is_link(pairs, #[trigger] whole[i], whole[i + 1]) by {
        if i < first.len() - 1 {
            assert(is_link(pairs, first[i], first[i + 1]));
        } else if i == first.len() - 1 {
            assert(whole[i] == a);
            assert(whole[i + 1] == second[0]);
        } else {
            let j = i - first.len();
            assert(whole[i] == second[j]);
            assert(whole[i + 1] == second[j + 1]);
            assert(is_link(pairs, second[j], second[j + 1]));
        }
    }
    assert(is_chain(pairs, whole));
    assert(whole[0] == first[0]);
    assert(whole.last() == second.last());
}

/// Two elements that share a representative are linked by a chain of
/// pairs.
pub proof fn lemma_shared_is_linked(n: nat, pairs: Seq<(int, int)>, x: int, y: int)
    requires
        pairs_within(n, pairs),
        0 <= x < n,
        0 <= y < n,
        roots_after(n, pairs)[x] == roots_after(n, pairs)[y],
    ensures
        linked(pairs, x, y),
    decreases pairs.len(),
{
    if pairs.len() == 0 {
        let chain = seq![x];
        assert(is_chain(pairs, chain));
        assert(chain[0] == x && chain.last() == y);
    } else {
        let front = pairs.drop_last();
        let before = roots_after(n, front);
        let (a, b) = pairs.last();
        lemma_roots_after_step(n, pairs, x, y);
        if before[x] == before[y] {
            lemma_shared_is_linked(n, front, x, y);
            lemma_linked_grows(pairs, x, y);
        } else {
            assert(pairs[pairs.len() - 1] == (a, b));
            if before[x] == before[a] && before[y] == before[b] {
                lemma_shared_is_linked(n, front, x, a);
                lemma_shared_is_linked(n, front, b, y);
                lemma_linked_grows(pairs, x, a);
                lemma_linked_grows(pairs, b, y);
                assert(is_link(pairs, a, b));
                lemma_linked_through(pairs, x, a, b, y);
            } else {
                lemma_shared_is_linked(n, front, x, b);
                lemma_shared_is_linked(n, front, a, y);
                lemma_linked_grows(pairs, x, b);
                lemma_linked_grows(pairs, a, y);
                assert(is_link(pairs, b, a));
                lemma_linked_through(pairs, x, b, a, y);
            }
        }
    }
}

/// After any run of unions, two elements share a representative exactly if
/// a chain of the pairs that were united links them.
pub proof fn lemma_unions_close(n: nat, pairs: Seq<(int, int)>, x: int, y: int)
    requires
        pairs_within(n, pairs),
        0 <= x < n,
        0 <= y < n,
    ensures
        roots_after(n, pairs)[x] == roots_after(n, pairs)[y] <==> linked(pairs, x, y),
{
    if roots_after(n, pairs)[x] == roots_after(n, pairs)[y] {
        lemma_shared_is_linked(n, pairs, x, y);
    }
    if linked(pairs, x, y) {
        let chain = choose|chain: Seq<int>| #[trigger]
            is_chain(pairs, chain) && chain[0] == x && chain.last() == y;
        lemma_chain_shares(n, pairs, chain, chain.len() - 1);
    }
}

/// The sizes of the sets whose representative is below `k`, added up.
pub open spec fn sizes_below(rep: Seq<int>, k: int) -> nat
    decreases k,
{
    if k <= 0 {
        0
    } else {
        sizes_below(rep, k - 1) + if rep[k - 1] == k - 1 {
            class(rep, k - 1).len()
        } else {
            0
        }
    }
}

/// The elements whose representative is below `k`.
pub open spec fn held_below(rep: Seq<int>, k: int) -> Set<int> {
    Set::new(|x: int| 0 <= x < rep.len() && rep[x] < k)
}

/// Every element has an element as its representative, which represents
/// itself.
pub open spec fn names_sets(rep: Seq<int>) -> bool {
    forall|x: int| 0 <= x < rep.len() ==> 0 <= #[trigger] rep[x] < rep.len() && rep[rep[x]] == rep[x]
}

/// The sizes of the sets with a representative below `k` add up to the
/// number of elements that these sets hold.
pub proof fn lemma_sizes_below(rep: Seq<int>, k: int)
    requires
        names_sets(rep),
        0 <= k <= rep.len(),
    ensures
        held_below(rep, k).finite(),
        sizes_below(rep, k) == held_below(rep, k).len(),
    decreases k,
{
    let all = vstd::set_lib::set_int_range(0, rep.len() as int);
    vstd::set_lib::lemma_int_range(0, rep.len() as int);
    assert(held_below(rep, k).subset_of(all));
    vstd::set_lib::lemma_len_subset(held_below(rep, k), all);
    if k == 0 {
        assert(held_below(rep, k) =~= Set::<int>::empty());
    } else {
        lemma_sizes_below(rep, k - 1);
        let lower = held_below(rep, k - 1);
        let here = class(rep, k - 1);
        lemma_class_bounded(rep, k - 1);
        assert(held_below(rep, k) =~= lower + here);
        assert(lower.disjoint(here));
        vstd::set_lib::lemma_set_disjoint_lens(lower, here);
        if rep[k - 1] != k - 1 {
            assert forall|x: int| !here.contains(x) by {
                if 0 <= x < rep.len() && rep[x] == k - 1 {
                    assert(rep[rep[x]] == rep[x]);
                }
            }
            assert(here =~= Set::<int>::empty());
        }
    }
}

/// The sizes of the sets of a union-find add up to the number of its
/// elements.
pub proof fn lemma_sizes_add_up(uf: &UnionFind)
    requires
        uf.wf(),
    ensures
        sizes_below(uf.roots(), uf.len() as int) == uf.len(),
{
    let rep = uf.roots();
    crate::union_find::lemma_roots_len(uf);
    assert forall|x: int| 0 <= x < rep.len() implies 0 <= #[trigger] rep[x] < rep.len() && rep[rep[x]]
        == rep[x] by {
        lemma_root_facts(uf.parents(), uf.sizes(), x);
    }
    lemma_sizes_below(rep, rep.len() as int);
    vstd::set_lib::lemma_int_range(0, rep.len() as int);
    assert(held_below(rep, rep.len() as int) =~= vstd::set_lib::set_int_range(0, rep.len() as int));
}

} // verus!
