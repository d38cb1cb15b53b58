//! Bisection over the integers, driven by a caller-supplied predicate.

use vstd::prelude::*;

verus! {

/// What `f` answers at `x`: the one value its postcondition admits.
pub open spec fn answer_of<F: Fn(isize) -> bool>(f: F, x: isize) -> bool {
    choose|b: bool| call_ensures(f, (x,), b)
}

/// Half of `x`, rounded toward zero.
pub open spec fn half_toward_zero(x: int) -> int {
    if x >= 0 {
        x / 2
    } else {
        -((-x) / 2)
    }
}

/// Distance between two integers.
pub open spec fn gap(a: int, b: int) -> nat {
    if a >= b {
        (a - b) as nat
    } else {
        (b - a) as nat
    }
}

/// The bisection itself: the interval between `ng` and `ok` is halved until
/// the two ends are adjacent or equal; the midpoint replaces `ok` where `p`
/// holds of it and `ng` where it does not. The `ok` end is the answer.
pub open spec fn bisect(ng: int, ok: int, p: spec_fn(int) -> bool) -> int
    decreases gap(ng, ok),
{
    if gap(ng, ok) <= 1 {
        ok
    } else {
        let mid = half_toward_zero(ng + ok);
        if p(mid) {
            bisect(ng, mid, p)
        } else {
            bisect(mid, ok, p)
        }
    }
}

/// `x` lies strictly between `a` and `b`, whichever of the two is larger.
pub open spec fn strictly_between(a: int, b: int, x: int) -> bool {
    (a < x < b) || (b < x < a)
}

/// The midpoint of an interval of width at least two lies strictly inside it.
pub proof fn lemma_mid_inside(ng: int, ok: int)
    requires
        gap(ng, ok) > 1,
    ensures
        strictly_between(ng, ok, half_toward_zero(ng + ok)),
{
}

/// Where `p`, once it holds at a point, holds at every point nearer to `ok`,
/// bisection returns the farthest point from `ok` at which `p` holds (or `ok`
/// itself where it holds nowhere inside).
pub proof fn lemma_bisect_boundary(ng: int, ok: int, p: spec_fn(int) -> bool)
    requires
        forall|x: int, y: int|
            strictly_between(ng, ok, y) && strictly_between(ok, y, x) && #[trigger] p(y)
                ==> #[trigger] p(x),
    ensures
        ({
            let r = bisect(ng, ok, p);
            &&& r == ok || (strictly_between(ng, ok, r) && p(r))
            &&& forall|x: int|
                strictly_between(ng, ok, x) ==> (#[trigger] p(x) <==> (x == r || strictly_between(
                    ok,
                    r,
                    x,
                )))
        }),
    decreases gap(ng, ok),
{
    if gap(ng, ok) > 1 {
        let mid = half_toward_zero(ng + ok);
        lemma_mid_inside(ng, ok);
        if p(mid) {
            lemma_bisect_boundary(ng, mid, p);
        } else {
            lemma_bisect_boundary(mid, ok, p);
        }
    }
}

/// The absolute difference of two values whose difference is representable.
fn distance(a: isize, b: isize) -> (d: isize)
    requires
        isize::MIN <= 2 * a <= isize::MAX,
        isize::MIN <= 2 * b <= isize::MAX,
    ensures
        d == gap(a as int, b as int),
{
    if a >= b {
        a - b
    } else {
        b - a
    }
}

/// Bisects between `ng` and `ok` with the predicate `f` and returns the final
/// `ok` end.
///
/// Both ends must be at most half the machine range away from zero, so that
/// neither their sum nor their difference overflows, and `f` must be callable
/// and single-valued at every point strictly between them.
pub fn binary_search<F>(ng: isize, ok: isize, f: F) -> (r: isize) where F: Fn(isize) -> bool
    requires
        isize::MIN <= 2 * ng <= isize::MAX,
        isize::MIN <= 2 * ok <= isize::MAX,
        forall|x: isize|
            strictly_between(ng as int, ok as int, x as int) ==> #[trigger] call_requires(f, (x,)),
        forall|x: isize, a: bool, b: bool|
            strictly_between(ng as int, ok as int, x as int) && #[trigger] call_ensures(f, (x,), a)
                && #[trigger] call_ensures(f, (x,), b) ==> a == b,
    ensures
        r == bisect(ng as int, ok as int, |x: int| answer_of(f, x as isize)),
{
    let mut ng = ng;
    let mut ok = ok;
    let ghost ng0 = ng as int;
    let ghost ok0 = ok as int;
    let ghost p = |x: int| answer_of(f, x as isize);
    while distance(ng, ok) > 1
        invariant
            isize::MIN <= 2 * ng0 <= isize::MAX,
            isize::MIN <= 2 * ok0 <= isize::MAX,
            ng == ng0 || strictly_between(ng0, ok0, ng as int),
            ok == ok0 || strictly_between(ng0, ok0, ok as int),
            p == (|x: int| answer_of(f, x as isize)),
            forall|x: isize| strictly_between(ng0, ok0, x as int) ==> #[trigger] call_requires(f, (x,)),
            forall|x: isize, a: bool, b: bool|
                strictly_between(ng0, ok0, x as int) && #[trigger] call_ensures(f, (x,), a)
                    && #[trigger] call_ensures(f, (x,), b) ==> a == b,
            bisect(ng as int, ok as int, p) == bisect(ng0, ok0, p),
        decreases gap(ng as int, ok as int),
    {
        let mid = (ng + ok) / 2;
        assert(mid == half_toward_zero(ng + ok));
        proof {
            lemma_mid_inside(ng as int, ok as int);
        }
        let hit = f(mid);
        assert(hit == p(mid as int));
        if hit {
            ok = mid;
        } else {
            ng = mid;
        }
    }
    ok
}

} // verus!
