//! Coordinate compression: the distinct values of a list, numbered in
//! ascending order.

use crate::order::{is_lawful_order, lemma_order_laws, precedes};
use vstd::laws_eq::obeys_concrete_eq;
use crate::values::clone_is_exact;
use std::collections::BTreeMap;
use vstd::prelude::*;

verus! {

/// No element of `s` comes strictly before an earlier one.
pub open spec fn is_ascending<T: Ord>(s: Seq<T>) -> bool {
    forall|i: int, j: int| 0 <= i < j < s.len() ==> !precedes(s[j], s[i])
}

/// Every element of `s` comes strictly before the later ones.
pub open spec fn is_strictly_ascending<T: Ord>(s: Seq<T>) -> bool {
    forall|i: int, j: int| 0 <= i < j < s.len() ==> precedes(s[i], s[j])
}

/// `s` without the elements that repeat the element just before them.
pub open spec fn without_repeats<T>(s: Seq<T>) -> Seq<T>
    decreases s.len(),
{
    if s.len() == 0 {
        s
    } else {
        let kept = without_repeats(s.drop_last());
        if kept.len() > 0 && kept.last() == s.last() {
            kept
        } else {
            kept.push(s.last())
        }
    }
}

/// `<[T]>::sort`.
///
/// Trusted: the vector afterwards holds the elements it held, each as
/// often as before, and none comes strictly before an earlier one. The
/// order must be lawful: on one that is not, the sort may panic.
#[verifier::external_body]
fn sort_values<T: Ord>(values: &mut Vec<T>)
    requires
        is_lawful_order::<T>(),
    ensures
        final(values)@.to_multiset() == old(values)@.to_multiset(),
        is_ascending(final(values)@),
{
    values.sort();
}

/// Drops every element that equals the one just before it.
fn drop_repeats<T: Ord>(values: &mut Vec<T>)
    requires
        is_lawful_order::<T>(),
    ensures
        final(values)@ == without_repeats(old(values)@),
{
    let ghost given = values@;
    let ghost n = given.len();
    let mut rest: Vec<T> = Vec::new();
    while values.len() > 0
        invariant
            n == given.len(),
            values@.len() + rest@.len() == n,
            forall|k: int| 0 <= k < values@.len() ==> values@[k] == given[k],
            forall|k: int| 0 <= k < rest@.len() ==> rest@[k] == given[n - 1 - k],
        decreases values.len(),
    {
        let x = values.pop().unwrap();
        rest.push(x);
    }
    assert(values@ =~= without_repeats(given.take(0)));
    while rest.len() > 0
        invariant
            is_lawful_order::<T>(),
            n == given.len(),
            rest@.len() <= n,
            forall|k: int| 0 <= k < rest@.len() ==> rest@[k] == given[n - 1 - k],
            values@ == without_repeats(given.take(n - rest@.len())),
        decreases rest.len(),
    {
        let ghost i = n - rest@.len();
        let x = rest.pop().unwrap();
        proof {
            reveal(obeys_concrete_eq);
            assert(x == given[i]);
            assert(given.take(i + 1).drop_last() =~= given.take(i));
            assert(given.take(i + 1).last() == given[i]);
        }
        let repeats = values.len() > 0 && values[values.len() - 1] == x;
        if !repeats {
            values.push(x);
        }
    }
    assert(given.take(n as int) =~= given);
}

/// Dropping the repeats of an ascending list leaves a strictly ascending
/// list of the same elements, which ends as the list ends.
pub proof fn lemma_without_repeats<T: Ord>(s: Seq<T>)
    requires
        is_lawful_order::<T>(),
        is_ascending(s),
    ensures
        is_strictly_ascending(without_repeats(s)),
        forall|x: T| without_repeats(s).contains(x) <==> s.contains(x),
        s.len() > 0 ==> without_repeats(s).len() > 0 && without_repeats(s).last() == s.last(),
    decreases s.len(),
{
    let out = without_repeats(s);
    if s.len() > 0 {
        let front = s.drop_last();
        let kept = without_repeats(front);
        let x = s.last();
        assert(s[s.len() - 1] == x);
        assert(is_ascending(front)) by {
            assert forall|i: int, j: int| 0 <= i < j < front.len() implies !precedes(
                front[j],
                front[i],
            ) by {
                assert(!precedes(s[j], s[i]));
            }
        }
        lemma_without_repeats(front);
        if kept.len() > 0 && kept.last() == x {
        } else {
            assert forall|i: int, j: int| 0 <= i < j < out.len() implies precedes(out[i], out[j]) by {
                if j < kept.len() {
                    assert(precedes(kept[i], kept[j]));
                } else {
                    let y = kept.last();
                    assert(kept[kept.len() - 1] == y);
                    assert(y == front.last());
                    assert(front[front.len() - 1] == s[s.len() - 2]);
                    assert(!precedes(s[s.len() - 1], s[s.len() - 2]));
                    lemma_order_laws(y, x, x);
                    lemma_order_laws(kept[i], y, x);
                    if i < kept.len() - 1 {
                        assert(precedes(kept[i], kept[kept.len() - 1]));
                    }
                }
            }
        }
        assert forall|z: T| out.contains(z) <==> s.contains(z) by {
            if out.contains(z) {
                let i = choose|i: int| 0 <= i < out.len() && out[i] == z;
                if i < kept.len() {
                    assert(kept[i] == z);
                    assert(kept.contains(z));
                    assert(front.contains(z));
                    let k = choose|k: int| 0 <= k < front.len() && front[k] == z;
                    assert(s[k] == z);
                } else {
                    assert(z == x);
                }
            }
            if s.contains(z) {
                let k = choose|k: int| 0 <= k < s.len() && s[k] == z;
                if k < front.len() {
                    assert(front[k] == z);
                    assert(front.contains(z));
                    assert(kept.contains(z));
                    let i = choose|i: int| 0 <= i < kept.len() && kept[i] == z;
                    assert(out[i] == z);
                } else {
                    assert(out[out.len() - 1] == z);
                }
            }
        }
    }
}

/// Distinct values, numbered in ascending order.
#[derive(Debug, Clone)]
pub struct Compress<T> {
    mapping: BTreeMap<T, usize>,
    rev: Vec<T>,
}

impl<T: Ord + Clone> Compress<T> {
    /// The values, in ascending order.
    pub closed spec fn values(&self) -> Seq<T> {
        self.rev@
    }

    /// The number of each value.
    pub closed spec fn numbers(&self) -> Map<T, usize> {
        self.mapping@
    }

    /// The values ascend strictly, and each is numbered by its place.
    pub open spec fn wf(&self) -> bool {
        &&& is_strictly_ascending(self.values())
        &&& forall|i: int|
            0 <= i < self.values().len() ==> self.numbers().contains_key(#[trigger] self.values()[i])
                && self.numbers()[self.values()[i]] == i
        &&& forall|x: T| #[trigger]
            self.numbers().contains_key(x) ==> self.numbers()[x] < self.values().len()
                && self.values()[self.numbers()[x] as int] == x
    }

    /// Numbers the distinct values among `values` in ascending order.
    pub fn new(values: Vec<T>) -> (c: Self)
        requires
            is_lawful_order::<T>(),
            clone_is_exact::<T>(),
        ensures
            c.wf(),
            forall|x: T| c.values().contains(x) <==> values@.contains(x),
    {
        let ghost given = values@;
        let mut values = values;
        sort_values(&mut values);
        let ghost sorted = values@;
        drop_repeats(&mut values);
        proof {
            lemma_without_repeats(sorted);
            assert forall|x: T| sorted.contains(x) <==> given.contains(x) by {
                sorted.to_multiset_ensures();
                given.to_multiset_ensures();
                assert(sorted.contains(x) <==> sorted.to_multiset().count(x) > 0);
                assert(given.contains(x) <==> given.to_multiset().count(x) > 0);
            }
        }
        let mut mapping: BTreeMap<T, usize> = BTreeMap::new();
        let mut i: usize = 0;
        while i < values.len()
            invariant
                is_lawful_order::<T>(),
                clone_is_exact::<T>(),
                is_strictly_ascending(values@),
                i <= values.len(),
                forall|k: int|
                    0 <= k < i ==> mapping@.contains_key(#[trigger] values@[k]) && mapping@[values@[k]]
                        == k,
                forall|x: T| #[trigger]
                    mapping@.contains_key(x) ==> mapping@[x] < i && values@[mapping@[x] as int] == x,
            decreases values.len() - i,
        {
            let key = values[i].clone();
            proof {
                assert forall|k: int| 0 <= k < i implies values@[k] != key by {
                    assert(precedes(values@[k], values@[i as int]));
                    lemma_order_laws(key, key, key);
                }
            }
            mapping.insert(key, i);
            i += 1;
        }
        Compress { mapping, rev: values }
    }

    /// The number of the value `x`, which must be one of the values.
    pub fn get(&self, x: &T) -> (i: usize)
        requires
            is_lawful_order::<T>(),
            self.numbers().contains_key(*x),
        ensures
            i == self.numbers()[*x],
    {
        *self.mapping.get(x).unwrap()
    }

    /// The number of distinct values.
    pub fn size(&self) -> (n: usize)
        ensures
            n == self.values().len(),
    {
        self.rev.len()
    }

    /// The value numbered `i`.
    pub fn rev(&self, i: usize) -> (x: &T)
        requires
            i < self.values().len(),
        ensures
            *x == self.values()[i as int],
    {
        &self.rev[i]
    }
}

} // verus!
