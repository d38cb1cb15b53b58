//! Union-find: a partition of `0..n` under union, with path compression and
//! union by size.
//!
//! The partition is kept as a forest of parent pointers. The contracts speak
//! of the partition only: of the representative of each element, which is
//! the root of its tree, and of the set of elements that share it.

use im_rc::Vector;
use vstd::prelude::*;

verus! {

/// The elements whose representative under `rep` is `r`.
pub open spec fn class(rep: Seq<int>, r: int) -> Set<int> {
    Set::new(|x: int| 0 <= x < rep.len() && rep[x] == r)
}

/// `rep`, `h` and `bound` certify that `parent` is a forest with the sizes
/// `size`: `rep` names the root of every element's tree, `h` grows along
/// every parent pointer and stays below `bound`, and every root carries the
/// number of elements of its tree.
pub open spec fn certifies(
    parent: Seq<usize>,
    size: Seq<usize>,
    rep: Seq<int>,
    h: Seq<nat>,
    bound: nat,
) -> bool {
    let n = parent.len();
    &&& size.len() == n
    &&& rep.len() == n
    &&& h.len() == n
    &&& forall|x: int|
        0 <= x < n ==> {
            &&& 0 <= #[trigger] rep[x] < n
            &&& parent[x] < n
            &&& parent[rep[x]] == rep[x]
            &&& rep[parent[x] as int] == rep[x]
            &&& (parent[x] == x ==> rep[x] == x)
            &&& h[x] < bound
            &&& (parent[x] != x ==> h[parent[x] as int] > h[x])
        }
    &&& forall|r: int| 0 <= r < n && parent[r] == r ==> #[trigger] size[r] == class(rep, r).len()
}

/// `rep` names the roots of the forest `parent`.
pub open spec fn has_roots(parent: Seq<usize>, size: Seq<usize>, rep: Seq<int>) -> bool {
    exists|h: Seq<nat>, bound: nat| #[trigger] certifies(parent, size, rep, h, bound)
}

/// `parent` is a forest, and `size` holds the size of each of its trees at
/// the tree's root.
pub open spec fn is_forest(parent: Seq<usize>, size: Seq<usize>) -> bool {
    exists|rep: Seq<int>| #[trigger] has_roots(parent, size, rep)
}

/// The root of every element's tree.
pub open spec fn roots_of(parent: Seq<usize>, size: Seq<usize>) -> Seq<int> {
    choose|rep: Seq<int>| #[trigger] has_roots(parent, size, rep)
}

/// How far `x` is from the top of the forest, by a certificate of it. This
/// falls along every parent pointer.
pub open spec fn climb_left(parent: Seq<usize>, size: Seq<usize>, x: int) -> int {
    let rep = roots_of(parent, size);
    let (h, bound) = choose|h: Seq<nat>, bound: nat| #[trigger] certifies(parent, size, rep, h, bound);
    bound - h[x]
}

/// What `climb_left` promises.
pub proof fn lemma_climb_left(parent: Seq<usize>, size: Seq<usize>, x: int)
    requires
        is_forest(parent, size),
        0 <= x < parent.len(),
    ensures
        climb_left(parent, size, x) > 0,
        parent[x] < parent.len(),
        parent[x] != x ==> climb_left(parent, size, parent[x] as int) < climb_left(parent, size, x),
        parent[x] == x <==> roots_of(parent, size)[x] == x,
        roots_of(parent, size)[parent[x] as int] == roots_of(parent, size)[x],
        0 <= roots_of(parent, size)[x] < parent.len(),
        has_roots(parent, size, roots_of(parent, size)),
{
    let rep = roots_of(parent, size);
    assert(has_roots(parent, size, rep));
    let (h, bound) = choose|h: Seq<nat>, bound: nat| #[trigger] certifies(parent, size, rep, h, bound);
    assert(0 <= rep[x] < parent.len());
    assert(0 <= rep[parent[x] as int] < parent.len());
}

/// The root of an element of a forest is an element, its own root and
/// parent, and carries the size of its class.
pub proof fn lemma_root_facts(parent: Seq<usize>, size: Seq<usize>, x: int)
    requires
        is_forest(parent, size),
        0 <= x < parent.len(),
    ensures
        roots_of(parent, size).len() == parent.len(),
        size.len() == parent.len(),
        ({
            let r = roots_of(parent, size)[x];
            &&& 0 <= r < parent.len()
            &&& parent[r] == r
            &&& roots_of(parent, size)[r] == r
            &&& size[r] == class(roots_of(parent, size), r).len()
        }),
{
    let rep = roots_of(parent, size);
    assert(has_roots(parent, size, rep));
    let (h, bound) = choose|h: Seq<nat>, bound: nat| #[trigger] certifies(parent, size, rep, h, bound);
    let r = rep[x];
    assert(0 <= r < parent.len());
    assert(0 <= rep[r] < parent.len());
}

/// In a certified forest, the root of an element stands at least as high as
/// the element, and higher where the two differ.
pub proof fn lemma_root_is_higher(
    parent: Seq<usize>,
    size: Seq<usize>,
    rep: Seq<int>,
    h: Seq<nat>,
    bound: nat,
    x: int,
)
    requires
        certifies(parent, size, rep, h, bound),
        0 <= x < parent.len(),
    ensures
        h[rep[x]] >= h[x],
        rep[x] != x ==> h[rep[x]] > h[x],
    decreases bound - h[x],
{
    assert(0 <= rep[x] < parent.len());
    if parent[x] != x {
        assert(0 <= rep[parent[x] as int] < parent.len());
        lemma_root_is_higher(parent, size, rep, h, bound, parent[x] as int);
    }
}

/// A forest has one assignment of roots only.
pub proof fn lemma_roots_unique(
    parent: Seq<usize>,
    size: Seq<usize>,
    rep1: Seq<int>,
    rep2: Seq<int>,
)
    requires
        has_roots(parent, size, rep1),
        has_roots(parent, size, rep2),
    ensures
        rep1 == rep2,
{
    let (h1, b1) = choose|h: Seq<nat>, bound: nat| #[trigger] certifies(parent, size, rep1, h, bound);
    let (h2, b2) = choose|h: Seq<nat>, bound: nat| #[trigger] certifies(parent, size, rep2, h, bound);
    assert forall|x: int| 0 <= x < parent.len() implies rep1[x] == rep2[x] by {
        lemma_roots_agree(parent, size, rep1, h1, b1, rep2, h2, b2, x);
    }
    assert(rep1 =~= rep2);
}

proof fn lemma_roots_agree(
    parent: Seq<usize>,
    size: Seq<usize>,
    rep1: Seq<int>,
    h1: Seq<nat>,
    b1: nat,
    rep2: Seq<int>,
    h2: Seq<nat>,
    b2: nat,
    x: int,
)
    requires
        certifies(parent, size, rep1, h1, b1),
        certifies(parent, size, rep2, h2, b2),
        0 <= x < parent.len(),
    ensures
        rep1[x] == rep2[x],
    decreases b1 - h1[x],
{
    assert(0 <= rep1[x] < parent.len());
    assert(0 <= rep2[x] < parent.len());
    if parent[x] != x {
        assert(0 <= rep1[parent[x] as int] < parent.len());
        assert(0 <= rep2[parent[x] as int] < parent.len());
        lemma_roots_agree(parent, size, rep1, h1, b1, rep2, h2, b2, parent[x] as int);
    }
}

/// The roots that a certificate names are the roots of the forest.
pub proof fn lemma_roots_are(parent: Seq<usize>, size: Seq<usize>, rep: Seq<int>, h: Seq<nat>, bound: nat)
    requires
        certifies(parent, size, rep, h, bound),
    ensures
        is_forest(parent, size),
        roots_of(parent, size) == rep,
{
    assert(has_roots(parent, size, rep));
    lemma_roots_unique(parent, size, rep, roots_of(parent, size));
}

/// Every class is finite and has at most as many elements as there are.
pub proof fn lemma_class_bounded(rep: Seq<int>, r: int)
    ensures
        class(rep, r).finite(),
        class(rep, r).len() <= rep.len(),
{
    let all = vstd::set_lib::set_int_range(0, rep.len() as int);
    vstd::set_lib::lemma_int_range(0, rep.len() as int);
    assert(class(rep, r).subset_of(all));
    vstd::set_lib::lemma_len_subset(class(rep, r), all);
}

/// Pointing an element at the root of its tree leaves the forest a forest
/// with the same roots.
pub proof fn lemma_compress(parent: Seq<usize>, size: Seq<usize>, x: int)
    requires
        is_forest(parent, size),
        0 <= x < parent.len(),
    ensures
        is_forest(parent.update(x, roots_of(parent, size)[x] as usize), size),
        roots_of(parent.update(x, roots_of(parent, size)[x] as usize), size) == roots_of(
            parent,
            size,
        ),
{
    let rep = roots_of(parent, size);
    assert(has_roots(parent, size, rep));
    let (h, bound) = choose|h: Seq<nat>, bound: nat| #[trigger] certifies(parent, size, rep, h, bound);
    let p = rep[x];
    assert(0 <= p < parent.len());
    let parent2 = parent.update(x, p as usize);
    lemma_root_is_higher(parent, size, rep, h, bound, x);
    assert forall|y: int| 0 <= y < parent2.len() implies {
        &&& 0 <= #[trigger] rep[y] < parent2.len()
        &&& parent2[y] < parent2.len()
        &&& parent2[rep[y]] == rep[y]
        &&& rep[parent2[y] as int] == rep[y]
        &&& (parent2[y] == y ==> rep[y] == y)
        &&& h[y] < bound
        &&& (parent2[y] != y ==> h[parent2[y] as int] > h[y])
    } by {
        assert(0 <= rep[y] < parent.len());
        assert(0 <= rep[rep[y]] < parent.len());
        assert(0 <= rep[rep[x]] < parent.len());
    }
    assert forall|r: int| 0 <= r < parent2.len() && parent2[r] == r implies #[trigger] size[r]
        == class(rep, r).len() by {
        assert(0 <= rep[r] < parent.len());
        assert(parent[r] == r);
    }
    assert(certifies(parent2, size, rep, h, bound));
    lemma_roots_are(parent2, size, rep, h, bound);
}

/// The roots after the tree of root `loser` has been hung below the root
/// `winner`.
pub open spec fn linked_roots(rep: Seq<int>, loser: int, winner: int) -> Seq<int> {
    Seq::new(
        rep.len(),
        |a: int|
            if rep[a] == loser {
                winner
            } else {
                rep[a]
            },
    )
}

/// The roots after the sets of `x` and `y` have been united: the smaller set
/// takes the representative of the larger one; of two sets of equal size,
/// the one of `y` takes that of `x`.
pub open spec fn united_roots(rep: Seq<int>, x: int, y: int) -> Seq<int> {
    let rx = rep[x];
    let ry = rep[y];
    if rx == ry {
        rep
    } else if class(rep, rx).len() < class(rep, ry).len() {
        linked_roots(rep, rx, ry)
    } else {
        linked_roots(rep, ry, rx)
    }
}

/// Hanging one root below another and adding its size to the other's leaves
/// a forest, in which the elements of the first tree have joined the second.
pub proof fn lemma_link(parent: Seq<usize>, size: Seq<usize>, loser: int, winner: int)
    requires
        is_forest(parent, size),
        0 <= loser < parent.len(),
        0 <= winner < parent.len(),
        parent.len() <= usize::MAX,
        parent[loser] == loser,
        parent[winner] == winner,
        loser != winner,
    ensures
        size[winner] + size[loser] <= parent.len(),
        is_forest(
            parent.update(loser, winner as usize),
            size.update(winner, (size[winner] + size[loser]) as usize),
        ),
        roots_of(
            parent.update(loser, winner as usize),
            size.update(winner, (size[winner] + size[loser]) as usize),
        ) == linked_roots(roots_of(parent, size), loser, winner),
{
    let rep = roots_of(parent, size);
    assert(has_roots(parent, size, rep));
    let (h, bound) = choose|h: Seq<nat>, bound: nat| #[trigger] certifies(parent, size, rep, h, bound);
    assert(0 <= rep[loser] < parent.len());
    assert(0 <= rep[winner] < parent.len());
    let rep2 = linked_roots(rep, loser, winner);
    let top: nat = if h[winner] > h[loser] {
        h[winner]
    } else {
        h[loser] + 1
    };
    let h2 = h.update(winner, top);
    let bound2 = bound + 1;
    let parent2 = parent.update(loser, winner as usize);

    let a = class(rep, winner);
    let b = class(rep, loser);
    lemma_class_bounded(rep, winner);
    lemma_class_bounded(rep, loser);
    assert(a.disjoint(b));
    vstd::set_lib::lemma_set_disjoint_lens(a, b);
    assert(class(rep2, winner) =~= a + b);
    lemma_class_bounded(rep2, winner);
    assert(size[winner] == a.len());
    assert(size[loser] == b.len());
    let size2 = size.update(winner, (size[winner] + size[loser]) as usize);

    assert forall|y: int| 0 <= y < parent2.len() implies {
        &&& 0 <= #[trigger] rep2[y] < parent2.len()
        &&& parent2[y] < parent2.len()
        &&& parent2[rep2[y]] == rep2[y]
        &&& rep2[parent2[y] as int] == rep2[y]
        &&& (parent2[y] == y ==> rep2[y] == y)
        &&& h2[y] < bound2
        &&& (parent2[y] != y ==> h2[parent2[y] as int] > h2[y])
    } by {
        assert(0 <= rep[y] < parent.len());
        assert(0 <= rep[parent[y] as int] < parent.len());
    }
    assert forall|r: int| 0 <= r < parent2.len() && parent2[r] == r implies #[trigger] size2[r]
        == class(rep2, r).len() by {
        assert(0 <= rep[r] < parent.len());
        if r != winner {
            assert(class(rep2, r) =~= class(rep, r));
        }
    }
    assert(certifies(parent2, size2, rep2, h2, bound2));
    lemma_roots_are(parent2, size2, rep2, h2, bound2);
}

/// The forest in which every element is its own tree.
pub proof fn lemma_singletons(parent: Seq<usize>, size: Seq<usize>)
    requires
        parent.len() == size.len(),
        forall|i: int| 0 <= i < parent.len() ==> #[trigger] parent[i] == i,
        forall|i: int| 0 <= i < size.len() ==> #[trigger] size[i] == 1,
    ensures
        is_forest(parent, size),
        forall|i: int| 0 <= i < parent.len() ==> #[trigger] roots_of(parent, size)[i] == i,
{
    let n = parent.len();
    let rep = Seq::new(n, |i: int| i);
    let h = Seq::new(n, |i: int| 0nat);
    assert forall|r: int| 0 <= r < n && parent[r] == r implies #[trigger] size[r] == class(
        rep,
        r,
    ).len() by {
        assert(class(rep, r) =~= set![r]);
    }
    assert(certifies(parent, size, rep, h, 1));
    lemma_roots_are(parent, size, rep, h, 1);
}

#[derive(Debug)]
pub struct UnionFind {
    parent: Vec<usize>,
    size: Vec<usize>,
}

impl UnionFind {
    /// The parent pointers.
    pub closed spec fn parents(&self) -> Seq<usize> {
        self.parent@
    }

    /// The size kept with each element; it counts at roots only.
    pub closed spec fn sizes(&self) -> Seq<usize> {
        self.size@
    }

    /// The parent pointers form a forest whose roots carry the sizes of
    /// their trees.
    pub open spec fn wf(&self) -> bool {
        is_forest(self.parents(), self.sizes())
    }

    /// The number of elements.
    pub open spec fn len(&self) -> nat {
        self.parents().len()
    }

    /// The representative of every element.
    pub open spec fn roots(&self) -> Seq<int> {
        roots_of(self.parents(), self.sizes())
    }

    /// The representative of the set that holds `x`.
    pub open spec fn root(&self, x: int) -> int {
        self.roots()[x]
    }

    /// `x` and `y` are in the same set.
    pub open spec fn same_set(&self, x: int, y: int) -> bool {
        self.root(x) == self.root(y)
    }

    /// The set that holds `x`.
    pub open spec fn set_of(&self, x: int) -> Set<int> {
        class(self.roots(), self.root(x))
    }

    /// The partition did not change between `self` and `other`: every
    /// element has the representative it had.
    pub open spec fn same_partition(&self, other: &Self) -> bool {
        &&& self.len() == other.len()
        &&& self.roots() == other.roots()
    }

    /// Creates `n` sets of one element each.
    pub fn new(n: usize) -> (uf: Self)
        ensures
            uf.wf(),
            uf.len() == n,
            forall|x: int| 0 <= x < n ==> #[trigger] uf.root(x) == x,
    {
        let mut parent: Vec<usize> = Vec::new();
        let mut size: Vec<usize> = Vec::new();
        let mut i: usize = 0;
        while i < n
            invariant
                i <= n,
                parent@.len() == i,
                size@.len() == i,
                forall|k: int| 0 <= k < i ==> #[trigger] parent@[k] == k,
                forall|k: int| 0 <= k < i ==> #[trigger] size@[k] == 1,
            decreases n - i,
        {
            parent.push(i);
            size.push(1);
            i += 1;
        }
        proof {
            lemma_singletons(parent@, size@);
        }
        UnionFind { parent, size }
    }

    /// Finds the representative of the set that holds `x`, and shortens the
    /// path from `x` to it. The partition stays as it is.
    pub fn find(&mut self, x: usize) -> (r: usize)
        requires
            old(self).wf(),
            x < old(self).len(),
        ensures
            final(self).wf(),
            final(self).same_partition(old(self)),
            r == old(self).root(x as int),
            r < old(self).len(),
        decreases climb_left(old(self).parents(), old(self).sizes(), x as int),
    {
        proof {
            lemma_climb_left(self.parent@, self.size@, x as int);
        }
        if self.parent[x] == x {
            x
        } else {
            let up = self.parent[x];
            let p = self.find(up);
            proof {
                lemma_compress(self.parent@, self.size@, x as int);
            }
            self.parent[x] = p;
            p
        }
    }

    /// Unites the sets that hold `x` and `y`.
    ///
    /// Where they differ, the smaller set joins the larger one and takes
    /// its representative; of two sets of equal size, the one of `y` joins
    /// the one of `x`. All other sets stay as they are.
    pub fn unite(&mut self, x: usize, y: usize)
        requires
            old(self).wf(),
            x < old(self).len(),
            y < old(self).len(),
        ensures
            final(self).wf(),
            final(self).len() == old(self).len(),
            final(self).roots() == united_roots(old(self).roots(), x as int, y as int),
    {
        let ghost rep0 = roots_of(self.parent@, self.size@);
        let x_root = self.find(x);
        let y_root = self.find(y);
        let n = self.parent.len();
        proof {
            lemma_root_facts(self.parent@, self.size@, x as int);
            lemma_root_facts(self.parent@, self.size@, y as int);
        }
        if x_root == y_root {
            return ;
        }
        if self.size[x_root] < self.size[y_root] {
            proof {
                lemma_link(self.parent@, self.size@, x_root as int, y_root as int);
            }
            let grown = self.size[y_root] + self.size[x_root];
            self.parent[x_root] = y_root;
            self.size[y_root] = grown;
        } else {
            proof {
                lemma_link(self.parent@, self.size@, y_root as int, x_root as int);
            }
            let grown = self.size[x_root] + self.size[y_root];
            self.parent[y_root] = x_root;
            self.size[x_root] = grown;
        }
    }

    /// Whether `x` and `y` are in the same set. The partition stays as it
    /// is.
    pub fn same(&mut self, x: usize, y: usize) -> (b: bool)
        requires
            old(self).wf(),
            x < old(self).len(),
            y < old(self).len(),
        ensures
            final(self).wf(),
            final(self).same_partition(old(self)),
            b == old(self).same_set(x as int, y as int),
    {
        let rx = self.find(x);
        let ry = self.find(y);
        rx == ry
    }

    /// The number of elements of the set that holds `x`. The partition
    /// stays as it is.
    pub fn size(&mut self, x: usize) -> (n: usize)
        requires
            old(self).wf(),
            x < old(self).len(),
        ensures
            final(self).wf(),
            final(self).same_partition(old(self)),
            n == old(self).set_of(x as int).len(),
    {
        let root = self.find(x);
        proof {
            lemma_root_facts(self.parent@, self.size@, x as int);
        }
        self.size[root]
    }
}

/// There is a representative for every element, and for nothing else.
pub proof fn lemma_roots_len(uf: &UnionFind)
    requires
        uf.wf(),
    ensures
        uf.roots().len() == uf.len(),
{
    let rep = uf.roots();
    assert(has_roots(uf.parents(), uf.sizes(), rep));
}

/// Being in the same set is an equivalence: it holds of every element and
/// itself, it does not depend on the order of the two, and it passes along
/// chains.
pub proof fn lemma_same_set_is_equivalence(uf: &UnionFind, x: int, y: int, z: int)
    ensures
        uf.same_set(x, x),
        uf.same_set(x, y) ==> uf.same_set(y, x),
        uf.same_set(x, y) && uf.same_set(y, z) ==> uf.same_set(x, z),
{
}

/// What a union does to the relation of being in the same set: two
/// elements are together afterwards exactly if they were before, or if one
/// was with `x` and the other with `y`.
pub proof fn lemma_unite_joins(before: &UnionFind, after: &UnionFind, x: int, y: int, a: int, b: int)
    requires
        before.wf(),
        0 <= x < before.len(),
        0 <= y < before.len(),
        0 <= a < before.len(),
        0 <= b < before.len(),
        after.roots() == united_roots(before.roots(), x, y),
    ensures
        after.same_set(a, b) <==> before.same_set(a, b) || (before.same_set(a, x)
            && before.same_set(b, y)) || (before.same_set(a, y) && before.same_set(b, x)),
{
    lemma_root_facts(before.parents(), before.sizes(), x);
}

/// After a union, the set of `x` holds the elements of the two sets that
/// were united, and where these differed its size is the sum of theirs.
pub proof fn lemma_unite_sizes(before: &UnionFind, after: &UnionFind, x: int, y: int)
    requires
        before.wf(),
        0 <= x < before.len(),
        0 <= y < before.len(),
        after.roots() == united_roots(before.roots(), x, y),
    ensures
        after.set_of(x) == before.set_of(x) + before.set_of(y),
        !before.same_set(x, y) ==> after.set_of(x).len() == before.set_of(x).len() + before.set_of(
            y,
        ).len(),
{
    let rep = before.roots();
    let rep2 = after.roots();
    lemma_root_facts(before.parents(), before.sizes(), x);
    lemma_root_facts(before.parents(), before.sizes(), y);
    let rx = rep[x];
    let ry = rep[y];
    let joined = before.set_of(x) + before.set_of(y);
    assert(rep2.len() == rep.len());
    assert forall|c: int| after.set_of(x).contains(c) <==> joined.contains(c) by {
        if 0 <= c < rep.len() {
            if rx != ry {
                if class(rep, rx).len() < class(rep, ry).len() {
                    assert(rep2[c] == linked_roots(rep, rx, ry)[c]);
                    assert(rep2[x] == linked_roots(rep, rx, ry)[x]);
                } else {
                    assert(rep2[c] == linked_roots(rep, ry, rx)[c]);
                    assert(rep2[x] == linked_roots(rep, ry, rx)[x]);
                }
            }
        }
    }
    assert(after.set_of(x) =~= joined);
    if !before.same_set(x, y) {
        lemma_class_bounded(rep, rx);
        lemma_class_bounded(rep, ry);
        assert(before.set_of(x).disjoint(before.set_of(y)));
        vstd::set_lib::lemma_set_disjoint_lens(before.set_of(x), before.set_of(y));
    }
}

#[verifier::external_type_specification]
#[verifier::external_body]
#[verifier::reject_recursive_types(A)]
pub struct ExVector<A>(Vector<A>);

/// `Vector::clone`.
///
/// Trusted: nothing is claimed of the clone here; the library clones a
/// union-find only on behalf of its callers.
pub assume_specification<A: Clone>[ <Vector<A> as Clone>::clone ](v: &Vector<A>) -> (r: Vector<A>);

/// The elements of a persistent vector, in order.
pub uninterp spec fn vector_items(v: Vector<usize>) -> Seq<usize>;

/// `Vector::from` on a `Vec`.
///
/// Trusted: the persistent vector holds the elements of the `Vec`, in the
/// same order.
#[verifier::external_body]
fn vector_from_vec(v: Vec<usize>) -> (r: Vector<usize>)
    ensures
        vector_items(r) == v@,
{
    Vector::from(v)
}

/// Indexing into a persistent vector.
///
/// Trusted: the element at position `i`. The index must be in range: the
/// outside code panics where it is not.
#[verifier::external_body]
fn vector_get(v: &Vector<usize>, i: usize) -> (r: usize)
    requires
        i < vector_items(*v).len(),
    ensures
        r == vector_items(*v)[i as int],
{
    v[i]
}

/// `Vector::update`.
///
/// Trusted: a new vector that holds `x` at position `i` and elsewhere what
/// `v` holds; `v` itself is not changed. The index must be in range: the
/// outside code panics where it is not.
#[verifier::external_body]
fn vector_update(v: &Vector<usize>, i: usize, x: usize) -> (r: Vector<usize>)
    requires
        i < vector_items(*v).len(),
    ensures
        vector_items(r) == vector_items(*v).update(i as int, x),
{
    v.update(i, x)
}

/// A union-find with the interface of `UnionFind`, kept in persistent
/// vectors: a clone is cheap and shares what it can with the structure it
/// was made from, and no operation on one is seen by the other.
#[derive(Debug, Clone)]
pub struct PersistentUnionFind {
    parent: Vector<usize>,
    size: Vector<usize>,
}

impl PersistentUnionFind {
    /// The parent pointers.
    pub closed spec fn parents(&self) -> Seq<usize> {
        vector_items(self.parent)
    }

    /// The size kept with each element; it counts at roots only.
    pub closed spec fn sizes(&self) -> Seq<usize> {
        vector_items(self.size)
    }

    /// The parent pointers form a forest whose roots carry the sizes of
    /// their trees.
    pub open spec fn wf(&self) -> bool {
        is_forest(self.parents(), self.sizes()) && self.parents().len() <= usize::MAX
    }

    /// The number of elements.
    pub open spec fn len(&self) -> nat {
        self.parents().len()
    }

    /// The representative of every element.
    pub open spec fn roots(&self) -> Seq<int> {
        roots_of(self.parents(), self.sizes())
    }

    /// The representative of the set that holds `x`.
    pub open spec fn root(&self, x: int) -> int {
        self.roots()[x]
    }

    /// `x` and `y` are in the same set.
    pub open spec fn same_set(&self, x: int, y: int) -> bool {
        self.root(x) == self.root(y)
    }

    /// The set that holds `x`.
    pub open spec fn set_of(&self, x: int) -> Set<int> {
        class(self.roots(), self.root(x))
    }

    /// The partition did not change between `self` and `other`.
    pub open spec fn same_partition(&self, other: &Self) -> bool {
        &&& self.len() == other.len()
        &&& self.roots() == other.roots()
    }

    /// Creates `n` sets of one element each.
    pub fn new(n: usize) -> (uf: Self)
        ensures
            uf.wf(),
            uf.len() == n,
            forall|x: int| 0 <= x < n ==> #[trigger] uf.root(x) == x,
    {
        let mut parent: Vec<usize> = Vec::new();
        let mut size: Vec<usize> = Vec::new();
        let mut i: usize = 0;
        while i < n
            invariant
                i <= n,
                parent@.len() == i,
                size@.len() == i,
                forall|k: int| 0 <= k < i ==> #[trigger] parent@[k] == k,
                forall|k: int| 0 <= k < i ==> #[trigger] size@[k] == 1,
            decreases n - i,
        {
            parent.push(i);
            size.push(1);
            i += 1;
        }
        proof {
            lemma_singletons(parent@, size@);
        }
        PersistentUnionFind { parent: vector_from_vec(parent), size: vector_from_vec(size) }
    }

    /// Finds the representative of the set that holds `x`, and points `x`
    /// at it. The partition stays as it is.
    pub fn find(&mut self, x: usize) -> (r: usize)
        requires
            old(self).wf(),
            x < old(self).len(),
        ensures
            final(self).wf(),
            final(self).same_partition(old(self)),
            r == old(self).root(x as int),
            r < old(self).len(),
    {
        proof {
            lemma_climb_left(self.parents(), self.sizes(), x as int);
        }
        let up = vector_get(&self.parent, x);
        if up == x {
            x
        } else {
            let p = self.find_immut(up);
            proof {
                lemma_compress(self.parents(), self.sizes(), x as int);
            }
            self.parent = vector_update(&self.parent, x, p);
            p
        }
    }

    /// Finds the representative of the set that holds `x` and changes
    /// nothing.
    fn find_immut(&self, x: usize) -> (r: usize)
        requires
            self.wf(),
            x < self.len(),
        ensures
            r == self.root(x as int),
            r < self.len(),
        decreases climb_left(self.parents(), self.sizes(), x as int),
    {
        proof {
            lemma_climb_left(self.parents(), self.sizes(), x as int);
        }
        let up = vector_get(&self.parent, x);
        if up == x {
            x
        } else {
            self.find_immut(up)
        }
    }

    /// Unites the sets that hold `x` and `y`, as `UnionFind::unite` does.
    pub fn unite(&mut self, x: usize, y: usize)
        requires
            old(self).wf(),
            x < old(self).len(),
            y < old(self).len(),
        ensures
            final(self).wf(),
            final(self).len() == old(self).len(),
            final(self).roots() == united_roots(old(self).roots(), x as int, y as int),
    {
        let x_root = self.find(x);
        let y_root = self.find(y);
        proof {
            lemma_root_facts(self.parents(), self.sizes(), x as int);
            lemma_root_facts(self.parents(), self.sizes(), y as int);
        }
        if x_root == y_root {
            return ;
        }
        let x_size = vector_get(&self.size, x_root);
        let y_size = vector_get(&self.size, y_root);
        if x_size < y_size {
            proof {
                lemma_link(self.parents(), self.sizes(), x_root as int, y_root as int);
            }
            self.parent = vector_update(&self.parent, x_root, y_root);
            self.size = vector_update(&self.size, y_root, y_size + x_size);
        } else {
            proof {
                lemma_link(self.parents(), self.sizes(), y_root as int, x_root as int);
            }
            self.parent = vector_update(&self.parent, y_root, x_root);
            self.size = vector_update(&self.size, x_root, x_size + y_size);
        }
    }

    /// Whether `x` and `y` are in the same set. The partition stays as it
    /// is.
    pub fn same(&mut self, x: usize, y: usize) -> (b: bool)
        requires
            old(self).wf(),
            x < old(self).len(),
            y < old(self).len(),
        ensures
            final(self).wf(),
            final(self).same_partition(old(self)),
            b == old(self).same_set(x as int, y as int),
    {
        let rx = self.find(x);
        let ry = self.find(y);
        rx == ry
    }

    /// The number of elements of the set that holds `x`. The partition
    /// stays as it is.
    pub fn size(&mut self, x: usize) -> (n: usize)
        requires
            old(self).wf(),
            x < old(self).len(),
        ensures
            final(self).wf(),
            final(self).same_partition(old(self)),
            n == old(self).set_of(x as int).len(),
    {
        let root = self.find(x);
        proof {
            lemma_root_facts(self.parents(), self.sizes(), x as int);
        }
        vector_get(&self.size, root)
    }
}

} // verus!
