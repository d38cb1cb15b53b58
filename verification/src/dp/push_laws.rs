//! Why push-style propagation does not depend on the order of arrival.
//!
//! Where the operation of the monoid is associative and commutative, the
//! accumulator of a state ends as its starting value with all the
//! contributions of its incoming edges folded in, whichever way round they
//! arrive. So every schedule of a problem leaves the same table behind.

use super::discovery::{is_schedule, ranks_rise, reachable, states_of};
use super::push_dp::{
    held, propagated, push_identity, push_init, push_next, push_op, push_rank, push_result,
    push_trans, pushed_from, seeded, PushDPRules,
};
use vstd::prelude::*;

verus! {

/// The operation of the monoid is associative and commutative.
#[verifier::opaque]
pub open spec fn op_is_commutative<D: PushDPRules>(ctx: &D::Ctx) -> bool {
    &&& forall|a: D::Value, b: D::Value| #[trigger] push_op::<D>(ctx, a, b) == push_op::<D>(ctx, b, a)
    &&& forall|a: D::Value, b: D::Value, c: D::Value| #[trigger]
        push_op::<D>(ctx, push_op::<D>(ctx, a, b), c) == push_op::<D>(
            ctx,
            a,
            push_op::<D>(ctx, b, c),
        )
}

/// Two contributions can be folded in in either order.
pub proof fn lemma_op_swap<D: PushDPRules>(ctx: &D::Ctx, a: D::Value, x: D::Value, y: D::Value)
    requires
        op_is_commutative::<D>(ctx),
    ensures
        push_op::<D>(ctx, push_op::<D>(ctx, a, x), y) == push_op::<D>(
            ctx,
            push_op::<D>(ctx, a, y),
            x,
        ),
{
    reveal(op_is_commutative);
    assert(push_op::<D>(ctx, push_op::<D>(ctx, a, x), y) == push_op::<D>(
        ctx,
        a,
        push_op::<D>(ctx, x, y),
    ));
    assert(push_op::<D>(ctx, x, y) == push_op::<D>(ctx, y, x));
    assert(push_op::<D>(ctx, push_op::<D>(ctx, a, y), x) == push_op::<D>(
        ctx,
        a,
        push_op::<D>(ctx, y, x),
    ));
}

/// `start` with the contributions `incs` folded in, one after the other.
pub open spec fn folded<D: PushDPRules>(ctx: &D::Ctx, start: D::Value, incs: Seq<D::Value>) -> D::Value
    decreases incs.len(),
{
    if incs.len() == 0 {
        start
    } else {
        push_op::<D>(ctx, folded::<D>(ctx, start, incs.drop_last()), incs.last())
    }
}

/// What `s`, holding `v`, sends to `t` along the successor list `succs`:
/// one contribution for every time the list names `t`.
pub open spec fn sent<D: PushDPRules>(
    ctx: &D::Ctx,
    s: D::State,
    v: D::Value,
    succs: Seq<D::State>,
    t: D::State,
) -> Seq<D::Value>
    decreases succs.len(),
{
    if succs.len() == 0 {
        Seq::empty()
    } else {
        let rest = sent::<D>(ctx, s, v, succs.drop_last(), t);
        if succs.last() == t {
            rest.push(push_trans::<D>(ctx, s, t, v))
        } else {
            rest
        }
    }
}

/// What the states of `order`, each holding what `value` says, send to `t`,
/// one state after the other.
pub open spec fn sent_by_all<D: PushDPRules>(
    ctx: &D::Ctx,
    order: Seq<D::State>,
    value: spec_fn(D::State) -> D::Value,
    t: D::State,
) -> Seq<D::Value>
    decreases order.len(),
{
    if order.len() == 0 {
        Seq::empty()
    } else {
        let s = order.last();
        sent_by_all::<D>(ctx, order.drop_last(), value, t) + sent::<D>(
            ctx,
            s,
            value(s),
            push_next::<D>(ctx)(s),
            t,
        )
    }
}

/// What `t` has received once the states of `order` have been visited,
/// starting from the table `acc`.
pub open spec fn received<D: PushDPRules>(
    ctx: &D::Ctx,
    order: Seq<(usize, D::State)>,
    acc: Map<D::State, D::Value>,
    t: D::State,
) -> Seq<D::Value>
    decreases order.len(),
{
    if order.len() == 0 {
        Seq::empty()
    } else {
        let prev = propagated::<D>(ctx, order.drop_last(), acc);
        let s = order.last().1;
        received::<D>(ctx, order.drop_last(), acc, t) + sent::<D>(
            ctx,
            s,
            held::<D>(ctx, prev, s),
            push_next::<D>(ctx)(s),
            t,
        )
    }
}

/// What the accumulator of `t` starts from: its initial value where it is
/// a source among `states`, else the identity.
pub open spec fn start_of<D: PushDPRules>(ctx: &D::Ctx, states: Seq<D::State>, t: D::State) -> D::Value {
    if states.contains(t) && push_init::<D>(ctx, t) is Some {
        push_init::<D>(ctx, t)->0
    } else {
        push_identity::<D>(ctx)
    }
}

/// What the accumulator of each state holds at the end of a run over
/// `order`.
pub open spec fn final_value<D: PushDPRules>(ctx: &D::Ctx, order: Seq<(usize, D::State)>) -> spec_fn(
    D::State,
) -> D::Value {
    |t: D::State| held::<D>(ctx, push_result::<D>(ctx, order), t)
}

/// Folding in two runs of contributions is folding in the two in a row.
pub proof fn lemma_folded_concat<D: PushDPRules>(
    ctx: &D::Ctx,
    start: D::Value,
    a: Seq<D::Value>,
    b: Seq<D::Value>,
)
    ensures
        folded::<D>(ctx, start, a + b) == folded::<D>(ctx, folded::<D>(ctx, start, a), b),
    decreases b.len(),
{
    if b.len() == 0 {
        assert(a + b =~= a);
    } else {
        lemma_folded_concat::<D>(ctx, start, a, b.drop_last());
        assert((a + b).drop_last() =~= a + b.drop_last());
        assert((a + b).last() == b.last());
    }
}

/// A contribution can be folded in before a run of others or after it.
pub proof fn lemma_folded_swap_one<D: PushDPRules>(
    ctx: &D::Ctx,
    a: D::Value,
    y: D::Value,
    xs: Seq<D::Value>,
)
    requires
        op_is_commutative::<D>(ctx),
    ensures
        folded::<D>(ctx, push_op::<D>(ctx, a, y), xs) == push_op::<D>(ctx, folded::<D>(ctx, a, xs), y),
    decreases xs.len(),
{
    if xs.len() > 0 {
        lemma_folded_swap_one::<D>(ctx, a, y, xs.drop_last());
        lemma_op_swap::<D>(ctx, folded::<D>(ctx, a, xs.drop_last()), y, xs.last());
    }
}

/// Two runs of contributions can be folded in in either order.
pub proof fn lemma_folded_swap<D: PushDPRules>(
    ctx: &D::Ctx,
    a: D::Value,
    xs: Seq<D::Value>,
    ys: Seq<D::Value>,
)
    requires
        op_is_commutative::<D>(ctx),
    ensures
        folded::<D>(ctx, folded::<D>(ctx, a, xs), ys) == folded::<D>(ctx, folded::<D>(ctx, a, ys), xs),
    decreases ys.len(),
{
    if ys.len() > 0 {
        lemma_folded_swap::<D>(ctx, a, xs, ys.drop_last());
        lemma_folded_swap_one::<D>(ctx, folded::<D>(ctx, a, ys.drop_last()), ys.last(), xs);
    }
}

/// A state that a successor list does not name is sent nothing along it.
pub proof fn lemma_sent_nothing<D: PushDPRules>(
    ctx: &D::Ctx,
    s: D::State,
    v: D::Value,
    succs: Seq<D::State>,
    t: D::State,
)
    requires
        !succs.contains(t),
    ensures
        sent::<D>(ctx, s, v, succs, t) == Seq::<D::Value>::empty(),
    decreases succs.len(),
{
    if succs.len() > 0 {
        assert(succs[succs.len() - 1] == succs.last());
        assert forall|x: D::State| succs.drop_last().contains(x) implies succs.contains(x) by {
            let i = choose|i: int| 0 <= i < succs.drop_last().len() && succs.drop_last()[i] == x;
            assert(succs[i] == x);
        }
        lemma_sent_nothing::<D>(ctx, s, v, succs.drop_last(), t);
    }
}

/// After a state has sent along its successor list, every accumulator
/// holds what it held with what it was sent folded in, and the table binds
/// what it bound and what the list names.
pub proof fn lemma_pushed_from<D: PushDPRules>(
    ctx: &D::Ctx,
    s: D::State,
    v: D::Value,
    succs: Seq<D::State>,
    acc: Map<D::State, D::Value>,
    t: D::State,
)
    ensures
        held::<D>(ctx, pushed_from::<D>(ctx, s, v, succs, acc), t) == folded::<D>(
            ctx,
            held::<D>(ctx, acc, t),
            sent::<D>(ctx, s, v, succs, t),
        ),
        pushed_from::<D>(ctx, s, v, succs, acc).contains_key(t) <==> acc.contains_key(t)
            || succs.contains(t),
    decreases succs.len(),
{
    if succs.len() > 0 {
        lemma_pushed_from::<D>(ctx, s, v, succs.drop_last(), acc, t);
        assert(succs[succs.len() - 1] == succs.last());
        if succs.drop_last().contains(t) {
            let i = choose|i: int| 0 <= i < succs.drop_last().len() && succs.drop_last()[i] == t;
            assert(succs[i] == t);
        }
        if succs.contains(t) && succs.last() != t {
            let i = choose|i: int| 0 <= i < succs.len() && succs[i] == t;
            assert(succs.drop_last()[i] == t);
        }
        let rest = sent::<D>(ctx, s, v, succs.drop_last(), t);
        if succs.last() == t {
            assert(rest.push(push_trans::<D>(ctx, s, t, v)).drop_last() =~= rest);
        }
    }
}

/// After the states of `order` have been visited, every accumulator holds
/// what it held with what it has received folded in.
pub proof fn lemma_propagated<D: PushDPRules>(
    ctx: &D::Ctx,
    order: Seq<(usize, D::State)>,
    acc: Map<D::State, D::Value>,
    t: D::State,
)
    ensures
        held::<D>(ctx, propagated::<D>(ctx, order, acc), t) == folded::<D>(
            ctx,
            held::<D>(ctx, acc, t),
            received::<D>(ctx, order, acc, t),
        ),
    decreases order.len(),
{
    if order.len() > 0 {
        let prev = propagated::<D>(ctx, order.drop_last(), acc);
        let s = order.last().1;
        lemma_propagated::<D>(ctx, order.drop_last(), acc, t);
        lemma_pushed_from::<D>(ctx, s, held::<D>(ctx, prev, s), push_next::<D>(ctx)(s), prev, t);
        lemma_folded_concat::<D>(
            ctx,
            held::<D>(ctx, acc, t),
            received::<D>(ctx, order.drop_last(), acc, t),
            sent::<D>(ctx, s, held::<D>(ctx, prev, s), push_next::<D>(ctx)(s), t),
        );
    }
}

/// After seeding, an accumulator holds its starting value.
pub proof fn lemma_seeded<D: PushDPRules>(ctx: &D::Ctx, order: Seq<(usize, D::State)>, t: D::State)
    ensures
        held::<D>(ctx, seeded::<D>(ctx, order), t) == start_of::<D>(ctx, states_of(order), t),
        seeded::<D>(ctx, order).contains_key(t) <==> states_of(order).contains(t) && push_init::<D>(
            ctx,
            t,
        ) is Some,
    decreases order.len(),
{
    let states = states_of(order);
    if order.len() > 0 {
        lemma_seeded::<D>(ctx, order.drop_last(), t);
        let before = states_of(order.drop_last());
        assert(before =~= states.drop_last());
        assert(states[states.len() - 1] == order.last().1);
        if before.contains(t) {
            let i = choose|i: int| 0 <= i < before.len() && before[i] == t;
            assert(states[i] == t);
        }
        if states.contains(t) && order.last().1 != t {
            let i = choose|i: int| 0 <= i < states.len() && states[i] == t;
            assert(before[i] == t);
        }
    }
}

/// In a schedule of a graph whose ranks rise along every edge, a state is
/// sent nothing by the states that come at or after its own place.
pub proof fn lemma_nothing_comes_late<D: PushDPRules>(
    ctx: &D::Ctx,
    sources: Seq<D::State>,
    order: Seq<(usize, D::State)>,
    k: int,
    j: int,
    v: D::Value,
)
    requires
        is_schedule(push_next::<D>(ctx), push_rank::<D>(ctx), sources, order),
        ranks_rise(push_next::<D>(ctx), push_rank::<D>(ctx), sources),
        0 <= k <= j < order.len(),
    ensures
        sent::<D>(ctx, order[j].1, v, push_next::<D>(ctx)(order[j].1), order[k].1) == Seq::<
            D::Value,
        >::empty(),
{
    let s = order[j].1;
    let t = order[k].1;
    let next = push_next::<D>(ctx);
    assert(states_of(order)[j] == s);
    assert(states_of(order).contains(s));
    assert(reachable(next, sources, s));
    if next(s).contains(t) {
        assert(push_rank::<D>(ctx)(t) > push_rank::<D>(ctx)(s));
        assert(order[k].0 <= order[j].0);
    }
    lemma_sent_nothing::<D>(ctx, s, v, next(s), t);
}

/// In a schedule of a graph whose ranks rise along every edge, what a
/// state holds when its turn comes is what it holds at the end.
pub proof fn lemma_held_is_final<D: PushDPRules>(
    ctx: &D::Ctx,
    sources: Seq<D::State>,
    order: Seq<(usize, D::State)>,
    acc: Map<D::State, D::Value>,
    k: int,
    m: int,
)
    requires
        is_schedule(push_next::<D>(ctx), push_rank::<D>(ctx), sources, order),
        ranks_rise(push_next::<D>(ctx), push_rank::<D>(ctx), sources),
        0 <= k < order.len(),
        k <= m <= order.len(),
    ensures
        received::<D>(ctx, order.take(m), acc, order[k].1) == received::<D>(
            ctx,
            order.take(k),
            acc,
            order[k].1,
        ),
        held::<D>(ctx, propagated::<D>(ctx, order.take(m), acc), order[k].1) == held::<D>(
            ctx,
            propagated::<D>(ctx, order.take(k), acc),
            order[k].1,
        ),
    decreases m - k,
{
    let t = order[k].1;
    if m > k {
        lemma_held_is_final::<D>(ctx, sources, order, acc, k, m - 1);
        let upto = order.take(m);
        assert(upto.drop_last() =~= order.take(m - 1));
        assert(upto.last() == order[m - 1]);
        let prev = propagated::<D>(ctx, order.take(m - 1), acc);
        lemma_nothing_comes_late::<D>(
            ctx,
            sources,
            order,
            k,
            m - 1,
            held::<D>(ctx, prev, order[m - 1].1),
        );
        assert(received::<D>(ctx, upto, acc, t) =~= received::<D>(ctx, order.take(m - 1), acc, t));
    }
    lemma_propagated::<D>(ctx, order.take(m), acc, t);
    lemma_propagated::<D>(ctx, order.take(k), acc, t);
}

/// In a schedule of a graph whose ranks rise along every edge, what a
/// state has received in the end is what the scheduled states, each
/// holding its final value, send to it.
pub proof fn lemma_received_is_sent<D: PushDPRules>(
    ctx: &D::Ctx,
    sources: Seq<D::State>,
    order: Seq<(usize, D::State)>,
    m: int,
    t: D::State,
)
    requires
        is_schedule(push_next::<D>(ctx), push_rank::<D>(ctx), sources, order),
        ranks_rise(push_next::<D>(ctx), push_rank::<D>(ctx), sources),
        0 <= m <= order.len(),
    ensures
        received::<D>(ctx, order.take(m), seeded::<D>(ctx, order), t) == sent_by_all::<D>(
            ctx,
            states_of(order.take(m)),
            final_value::<D>(ctx, order),
            t,
        ),
    decreases m,
{
    let seed = seeded::<D>(ctx, order);
    if m == 0 {
        assert(states_of(order.take(0)) =~= Seq::<D::State>::empty());
    } else {
        lemma_received_is_sent::<D>(ctx, sources, order, m - 1, t);
        let upto = order.take(m);
        assert(upto.drop_last() =~= order.take(m - 1));
        assert(upto.last() == order[m - 1]);
        assert(states_of(upto).drop_last() =~= states_of(order.take(m - 1)));
        assert(states_of(upto).last() == order[m - 1].1);
        lemma_held_is_final::<D>(ctx, sources, order, seed, m - 1, order.len() as int);
        assert(order.take(order.len() as int) =~= order);
    }
}

/// The final value of a state is its starting value with what all the
/// scheduled states send to it folded in.
pub proof fn lemma_final_value<D: PushDPRules>(
    ctx: &D::Ctx,
    sources: Seq<D::State>,
    order: Seq<(usize, D::State)>,
    t: D::State,
)
    requires
        is_schedule(push_next::<D>(ctx), push_rank::<D>(ctx), sources, order),
        ranks_rise(push_next::<D>(ctx), push_rank::<D>(ctx), sources),
    ensures
        final_value::<D>(ctx, order)(t) == folded::<D>(
            ctx,
            start_of::<D>(ctx, states_of(order), t),
            sent_by_all::<D>(ctx, states_of(order), final_value::<D>(ctx, order), t),
        ),
{
    let seed = seeded::<D>(ctx, order);
    lemma_propagated::<D>(ctx, order, seed, t);
    lemma_seeded::<D>(ctx, order, t);
    lemma_received_is_sent::<D>(ctx, sources, order, order.len() as int, t);
    assert(order.take(order.len() as int) =~= order);
}

/// What a list of states sends does not change where the values they hold
/// change only at states that do not send.
pub proof fn lemma_sent_by_all_agrees<D: PushDPRules>(
    ctx: &D::Ctx,
    order: Seq<D::State>,
    f: spec_fn(D::State) -> D::Value,
    g: spec_fn(D::State) -> D::Value,
    t: D::State,
)
    requires
        forall|s: D::State|
            order.contains(s) && #[trigger] push_next::<D>(ctx)(s).contains(t) ==> f(s) == g(s),
    ensures
        sent_by_all::<D>(ctx, order, f, t) == sent_by_all::<D>(ctx, order, g, t),
    decreases order.len(),
{
    if order.len() > 0 {
        let s = order.last();
        assert(order[order.len() - 1] == s);
        assert forall|x: D::State|
            order.drop_last().contains(x) && #[trigger] push_next::<D>(ctx)(x).contains(
                t,
            ) implies f(x) == g(x) by {
            let i = choose|i: int| 0 <= i < order.drop_last().len() && order.drop_last()[i] == x;
            assert(order[i] == x);
        }
        lemma_sent_by_all_agrees::<D>(ctx, order.drop_last(), f, g, t);
        if !push_next::<D>(ctx)(s).contains(t) {
            lemma_sent_nothing::<D>(ctx, s, f(s), push_next::<D>(ctx)(s), t);
            lemma_sent_nothing::<D>(ctx, s, g(s), push_next::<D>(ctx)(s), t);
        }
    }
}

/// Folding in what a list of states sends, the turn of one of them can be
/// moved to the end.
pub proof fn lemma_move_to_end<D: PushDPRules>(
    ctx: &D::Ctx,
    start: D::Value,
    order: Seq<D::State>,
    f: spec_fn(D::State) -> D::Value,
    t: D::State,
    i: int,
)
    requires
        op_is_commutative::<D>(ctx),
        0 <= i < order.len(),
    ensures
        folded::<D>(ctx, start, sent_by_all::<D>(ctx, order, f, t)) == folded::<D>(
            ctx,
            folded::<D>(ctx, start, sent_by_all::<D>(ctx, order.remove(i), f, t)),
            sent::<D>(ctx, order[i], f(order[i]), push_next::<D>(ctx)(order[i]), t),
        ),
    decreases order.len(),
{
    let s = order[i];
    let block = sent::<D>(ctx, s, f(s), push_next::<D>(ctx)(s), t);
    let rest = order.drop_last();
    let last = order.last();
    let last_block = sent::<D>(ctx, last, f(last), push_next::<D>(ctx)(last), t);
    lemma_folded_concat::<D>(ctx, start, sent_by_all::<D>(ctx, rest, f, t), last_block);
    if i == order.len() - 1 {
        assert(order.remove(i) =~= rest);
    } else {
        lemma_move_to_end::<D>(ctx, start, rest, f, t, i);
        let without = rest.remove(i);
        assert(order.remove(i) =~= without.push(last));
        assert(without.push(last).drop_last() =~= without);
        lemma_folded_concat::<D>(ctx, start, sent_by_all::<D>(ctx, without, f, t), last_block);
        lemma_folded_swap::<D>(
            ctx,
            folded::<D>(ctx, start, sent_by_all::<D>(ctx, without, f, t)),
            block,
            last_block,
        );
    }
}

/// Folding in what a list of states sends gives the same for every list
/// that names the same states once each.
pub proof fn lemma_any_order<D: PushDPRules>(
    ctx: &D::Ctx,
    start: D::Value,
    a: Seq<D::State>,
    b: Seq<D::State>,
    f: spec_fn(D::State) -> D::Value,
    t: D::State,
)
    requires
        op_is_commutative::<D>(ctx),
        a.no_duplicates(),
        b.no_duplicates(),
        forall|s: D::State| a.contains(s) <==> b.contains(s),
    ensures
        folded::<D>(ctx, start, sent_by_all::<D>(ctx, a, f, t)) == folded::<D>(
            ctx,
            start,
            sent_by_all::<D>(ctx, b, f, t),
        ),
    decreases a.len(),
{
    if a.len() == 0 {
        if b.len() > 0 {
            assert(b.contains(b[0]));
        }
    } else {
        let s = a.last();
        assert(a[a.len() - 1] == s);
        assert(a.contains(s));
        let i = choose|i: int| 0 <= i < b.len() && b[i] == s;
        let a2 = a.drop_last();
        let b2 = b.remove(i);
        assert forall|x: D::State| a2.contains(x) <==> b2.contains(x) by {
            if a2.contains(x) {
                let j = choose|j: int| 0 <= j < a2.len() && a2[j] == x;
                assert(a[j] == x);
                assert(x != s);
                assert(b.contains(x));
                let k = choose|k: int| 0 <= k < b.len() && b[k] == x;
                if k < i {
                    assert(b2[k] == x);
                } else {
                    assert(b2[k - 1] == x);
                }
            }
            if b2.contains(x) {
                let k = choose|k: int| 0 <= k < b2.len() && b2[k] == x;
                if k < i {
                    assert(b[k] == x);
                } else {
                    assert(b[k + 1] == x);
                }
                assert(b.contains(x));
                assert(x != s);
                let j = choose|j: int| 0 <= j < a.len() && a[j] == x;
                assert(a2[j] == x);
            }
        }
        assert(b2.no_duplicates()) by {
            assert forall|p: int, q: int| 0 <= p < b2.len() && 0 <= q < b2.len() && p != q implies b2[p]
                != b2[q] by {
                let pp = if p < i {
                    p
                } else {
                    p + 1
                };
                let qq = if q < i {
                    q
                } else {
                    q + 1
                };
                assert(b2[p] == b[pp]);
                assert(b2[q] == b[qq]);
            }
        }
        lemma_any_order::<D>(ctx, start, a2, b2, f, t);
        lemma_folded_concat::<D>(
            ctx,
            start,
            sent_by_all::<D>(ctx, a2, f, t),
            sent::<D>(ctx, s, f(s), push_next::<D>(ctx)(s), t),
        );
        lemma_move_to_end::<D>(ctx, start, b, f, t, i);
    }
}

/// Two schedules of one problem list the same states.
pub proof fn lemma_same_states<D: PushDPRules>(
    ctx: &D::Ctx,
    sources: Seq<D::State>,
    first: Seq<(usize, D::State)>,
    second: Seq<(usize, D::State)>,
)
    requires
        is_schedule(push_next::<D>(ctx), push_rank::<D>(ctx), sources, first),
        is_schedule(push_next::<D>(ctx), push_rank::<D>(ctx), sources, second),
    ensures
        forall|s: D::State| states_of(first).contains(s) <==> states_of(second).contains(s),
        states_of(first).no_duplicates(),
        states_of(second).no_duplicates(),
{
    assert forall|s: D::State| states_of(first).contains(s) <==> states_of(second).contains(s) by {
        assert(states_of(first).contains(s) <==> reachable(push_next::<D>(ctx), sources, s));
        assert(states_of(second).contains(s) <==> reachable(push_next::<D>(ctx), sources, s));
    }
}

/// Two schedules of one problem give every state the same final value.
pub proof fn lemma_final_values_agree<D: PushDPRules>(
    ctx: &D::Ctx,
    sources: Seq<D::State>,
    first: Seq<(usize, D::State)>,
    second: Seq<(usize, D::State)>,
    t: D::State,
)
    requires
        op_is_commutative::<D>(ctx),
        ranks_rise(push_next::<D>(ctx), push_rank::<D>(ctx), sources),
        is_schedule(push_next::<D>(ctx), push_rank::<D>(ctx), sources, first),
        is_schedule(push_next::<D>(ctx), push_rank::<D>(ctx), sources, second),
    ensures
        final_value::<D>(ctx, first)(t) == final_value::<D>(ctx, second)(t),
    decreases push_rank::<D>(ctx)(t),
{
    let next = push_next::<D>(ctx);
    let a = states_of(first);
    let b = states_of(second);
    let f = final_value::<D>(ctx, first);
    let g = final_value::<D>(ctx, second);
    lemma_final_value::<D>(ctx, sources, first, t);
    lemma_final_value::<D>(ctx, sources, second, t);
    assert forall|s: D::State| b.contains(s) && #[trigger] next(s).contains(t) implies f(s) == g(
        s,
    ) by {
        assert(reachable(next, sources, s));
        assert(push_rank::<D>(ctx)(t) > push_rank::<D>(ctx)(s));
        lemma_final_values_agree::<D>(ctx, sources, first, second, s);
    }
    lemma_sent_by_all_agrees::<D>(ctx, b, g, f, t);
    lemma_same_states::<D>(ctx, sources, first, second);
    assert(start_of::<D>(ctx, a, t) == start_of::<D>(ctx, b, t));
    lemma_any_order::<D>(ctx, start_of::<D>(ctx, a, t), a, b, f, t);
}

/// The table that a run leaves behind binds the scheduled sources and the
/// states that a scheduled state names as a successor.
pub proof fn lemma_bound_states<D: PushDPRules>(
    ctx: &D::Ctx,
    order: Seq<(usize, D::State)>,
    acc: Map<D::State, D::Value>,
    t: D::State,
)
    ensures
        propagated::<D>(ctx, order, acc).contains_key(t) <==> acc.contains_key(t) || exists|
            s: D::State,
        |
            states_of(order).contains(s) && #[trigger] push_next::<D>(ctx)(s).contains(t),
    decreases order.len(),
{
    let states = states_of(order);
    if order.len() > 0 {
        let prev = propagated::<D>(ctx, order.drop_last(), acc);
        let last = order.last().1;
        let before = states_of(order.drop_last());
        lemma_bound_states::<D>(ctx, order.drop_last(), acc, t);
        lemma_pushed_from::<D>(ctx, last, held::<D>(ctx, prev, last), push_next::<D>(ctx)(last), prev, t);
        assert(before =~= states.drop_last());
        assert(states[states.len() - 1] == last);
        if exists|s: D::State| before.contains(s) && #[trigger] push_next::<D>(ctx)(s).contains(t) {
            let s = choose|s: D::State|
                before.contains(s) && #[trigger] push_next::<D>(ctx)(s).contains(t);
            let i = choose|i: int| 0 <= i < before.len() && before[i] == s;
            assert(states[i] == s);
        }
        if exists|s: D::State| states.contains(s) && #[trigger] push_next::<D>(ctx)(s).contains(t) {
            let s = choose|s: D::State|
                states.contains(s) && #[trigger] push_next::<D>(ctx)(s).contains(t);
            if s != last {
                let i = choose|i: int| 0 <= i < states.len() && states[i] == s;
                assert(before[i] == s);
            }
        }
    }
}

/// Where the operation of the monoid is associative and commutative, every
/// schedule of a problem leaves the same table behind: the outcome of a
/// propagation does not depend on the order in which contributions arrive.
pub proof fn lemma_push_result_is_order_independent<D: PushDPRules>(
    ctx: &D::Ctx,
    sources: Seq<D::State>,
    first: Seq<(usize, D::State)>,
    second: Seq<(usize, D::State)>,
)
    requires
        op_is_commutative::<D>(ctx),
        ranks_rise(push_next::<D>(ctx), push_rank::<D>(ctx), sources),
        is_schedule(push_next::<D>(ctx), push_rank::<D>(ctx), sources, first),
        is_schedule(push_next::<D>(ctx), push_rank::<D>(ctx), sources, second),
    ensures
        push_result::<D>(ctx, first) == push_result::<D>(ctx, second),
{
    let r1 = push_result::<D>(ctx, first);
    let r2 = push_result::<D>(ctx, second);
    lemma_same_states::<D>(ctx, sources, first, second);
    assert forall|t: D::State| r1.contains_key(t) <==> r2.contains_key(t) by {
        lemma_bound_states::<D>(ctx, first, seeded::<D>(ctx, first), t);
        lemma_bound_states::<D>(ctx, second, seeded::<D>(ctx, second), t);
        lemma_seeded::<D>(ctx, first, t);
        lemma_seeded::<D>(ctx, second, t);
        let a = states_of(first);
        let b = states_of(second);
        if exists|s: D::State| a.contains(s) && #[trigger] push_next::<D>(ctx)(s).contains(t) {
            let s = choose|s: D::State| a.contains(s) && #[trigger] push_next::<D>(ctx)(s).contains(t);
            assert(b.contains(s));
        }
        if exists|s: D::State| b.contains(s) && #[trigger] push_next::<D>(ctx)(s).contains(t) {
            let s = choose|s: D::State| b.contains(s) && #[trigger] push_next::<D>(ctx)(s).contains(t);
            assert(a.contains(s));
        }
    }
    assert forall|t: D::State| r1.contains_key(t) implies r1[t] == r2[t] by {
        lemma_final_values_agree::<D>(ctx, sources, first, second, t);
    }
    assert(r1 =~= r2);
}

/// How often `list` names `t`.
pub open spec fn times_named<S>(list: Seq<S>, t: S) -> nat
    decreases list.len(),
{
    if list.len() == 0 {
        0
    } else {
        times_named(list.drop_last(), t) + if list.last() == t {
            1nat
        } else {
            0nat
        }
    }
}

/// The problem `E` under `ctx2` is the problem `D` under `ctx1` with its
/// successor lists reordered: every rule but `succs` gives the same, and
/// the successor lists of a state name the same states equally often.
pub open spec fn same_up_to_successor_order<
    D: PushDPRules,
    E: PushDPRules<State = D::State, Value = D::Value>,
>(ctx1: &D::Ctx, ctx2: &E::Ctx) -> bool {
    &&& forall|s: D::State| #[trigger] push_rank::<D>(ctx1)(s) == push_rank::<E>(ctx2)(s)
    &&& forall|s: D::State| #[trigger] push_init::<D>(ctx1, s) == push_init::<E>(ctx2, s)
    &&& push_identity::<D>(ctx1) == push_identity::<E>(ctx2)
    &&& forall|a: D::Value, b: D::Value| #[trigger]
        push_op::<D>(ctx1, a, b) == push_op::<E>(ctx2, a, b)
    &&& forall|s: D::State, t: D::State, v: D::Value| #[trigger]
        push_trans::<D>(ctx1, s, t, v) == push_trans::<E>(ctx2, s, t, v)
    &&& forall|s: D::State, t: D::State| #[trigger]
        times_named(push_next::<D>(ctx1)(s), t) == times_named(push_next::<E>(ctx2)(s), t)
}

/// A list names a state at least once exactly if it contains it.
pub proof fn lemma_times_named<S>(list: Seq<S>, t: S)
    ensures
        times_named(list, t) > 0 <==> list.contains(t),
    decreases list.len(),
{
    if list.len() > 0 {
        lemma_times_named(list.drop_last(), t);
        assert(list[list.len() - 1] == list.last());
        if list.drop_last().contains(t) {
            let i = choose|i: int| 0 <= i < list.drop_last().len() && list.drop_last()[i] == t;
            assert(list[i] == t);
        }
        if list.contains(t) && list.last() != t {
            let i = choose|i: int| 0 <= i < list.len() && list[i] == t;
            assert(list.drop_last()[i] == t);
        }
    }
}

/// What a state sends to another along a list is one and the same
/// contribution, as often as the list names the other.
pub proof fn lemma_sent_is_repeated<D: PushDPRules>(
    ctx: &D::Ctx,
    s: D::State,
    v: D::Value,
    succs: Seq<D::State>,
    t: D::State,
)
    ensures
        sent::<D>(ctx, s, v, succs, t) == Seq::new(
            times_named(succs, t),
            |i: int| push_trans::<D>(ctx, s, t, v),
        ),
    decreases succs.len(),
{
    if succs.len() > 0 {
        lemma_sent_is_repeated::<D>(ctx, s, v, succs.drop_last(), t);
    }
    assert(sent::<D>(ctx, s, v, succs, t) =~= Seq::new(
        times_named(succs, t),
        |i: int| push_trans::<D>(ctx, s, t, v),
    ));
}

/// Folding is the same in a problem and in the problem with its successor
/// lists reordered.
pub proof fn lemma_folded_same<D: PushDPRules, E: PushDPRules<State = D::State, Value = D::Value>>(
    ctx1: &D::Ctx,
    ctx2: &E::Ctx,
    start: D::Value,
    incs: Seq<D::Value>,
)
    requires
        same_up_to_successor_order::<D, E>(ctx1, ctx2),
    ensures
        folded::<D>(ctx1, start, incs) == folded::<E>(ctx2, start, incs),
    decreases incs.len(),
{
    if incs.len() > 0 {
        lemma_folded_same::<D, E>(ctx1, ctx2, start, incs.drop_last());
    }
}

/// What a list of states sends is the same in a problem and in the problem
/// with its successor lists reordered.
pub proof fn lemma_sent_by_all_same<
    D: PushDPRules,
    E: PushDPRules<State = D::State, Value = D::Value>,
>(
    ctx1: &D::Ctx,
    ctx2: &E::Ctx,
    order: Seq<D::State>,
    f: spec_fn(D::State) -> D::Value,
    t: D::State,
)
    requires
        same_up_to_successor_order::<D, E>(ctx1, ctx2),
    ensures
        sent_by_all::<D>(ctx1, order, f, t) == sent_by_all::<E>(ctx2, order, f, t),
    decreases order.len(),
{
    if order.len() > 0 {
        let s = order.last();
        lemma_sent_by_all_same::<D, E>(ctx1, ctx2, order.drop_last(), f, t);
        lemma_sent_is_repeated::<D>(ctx1, s, f(s), push_next::<D>(ctx1)(s), t);
        lemma_sent_is_repeated::<E>(ctx2, s, f(s), push_next::<E>(ctx2)(s), t);
        assert(sent::<D>(ctx1, s, f(s), push_next::<D>(ctx1)(s), t) =~= sent::<E>(
            ctx2,
            s,
            f(s),
            push_next::<E>(ctx2)(s),
            t,
        ));
    }
}

/// The same states can be reached in a problem and in the problem with
/// its successor lists reordered.
pub proof fn lemma_reachable_same<
    D: PushDPRules,
    E: PushDPRules<State = D::State, Value = D::Value>,
>(ctx1: &D::Ctx, ctx2: &E::Ctx, sources: Seq<D::State>, s: D::State)
    requires
        same_up_to_successor_order::<D, E>(ctx1, ctx2),
        reachable(push_next::<D>(ctx1), sources, s),
    ensures
        reachable(push_next::<E>(ctx2), sources, s),
{
    let next1 = push_next::<D>(ctx1);
    let next2 = push_next::<E>(ctx2);
    let w = choose|w: Seq<D::State>| #[trigger] super::discovery::walks_to(next1, sources, w, s);
    assert forall|i: int| 0 <= i < w.len() - 1 implies next2(#[trigger] w[i]).contains(w[i + 1]) by {
        assert(next1(w[i]).contains(w[i + 1]));
        lemma_times_named(next1(w[i]), w[i + 1]);
        lemma_times_named(next2(w[i]), w[i + 1]);
    }
    assert(super::discovery::walks_to(next2, sources, w, s));
}

/// Two schedules, one of a problem and one of the problem with its
/// successor lists reordered, give every state the same final value.
pub proof fn lemma_final_values_agree_reordered<
    D: PushDPRules,
    E: PushDPRules<State = D::State, Value = D::Value>,
>(
    ctx1: &D::Ctx,
    ctx2: &E::Ctx,
    sources: Seq<D::State>,
    first: Seq<(usize, D::State)>,
    second: Seq<(usize, D::State)>,
    t: D::State,
)
    requires
        op_is_commutative::<D>(ctx1),
        same_up_to_successor_order::<D, E>(ctx1, ctx2),
        ranks_rise(push_next::<D>(ctx1), push_rank::<D>(ctx1), sources),
        ranks_rise(push_next::<E>(ctx2), push_rank::<E>(ctx2), sources),
        is_schedule(push_next::<D>(ctx1), push_rank::<D>(ctx1), sources, first),
        is_schedule(push_next::<E>(ctx2), push_rank::<E>(ctx2), sources, second),
        forall|s: D::State|
            reachable(push_next::<D>(ctx1), sources, s) <==> reachable(push_next::<E>(ctx2), sources, s),
    ensures
        final_value::<D>(ctx1, first)(t) == final_value::<E>(ctx2, second)(t),
    decreases push_rank::<D>(ctx1)(t),
{
    let next1 = push_next::<D>(ctx1);
    let next2 = push_next::<E>(ctx2);
    let a = states_of(first);
    let b = states_of(second);
    let f = final_value::<D>(ctx1, first);
    let g = final_value::<E>(ctx2, second);
    lemma_final_value::<D>(ctx1, sources, first, t);
    lemma_final_value::<E>(ctx2, sources, second, t);
    assert forall|s: D::State| a.contains(s) <==> b.contains(s) by {
        assert(a.contains(s) <==> reachable(next1, sources, s));
        assert(b.contains(s) <==> reachable(next2, sources, s));
    }
    assert forall|s: D::State| b.contains(s) && #[trigger] next1(s).contains(t) implies f(s) == g(
        s,
    ) by {
        assert(reachable(next1, sources, s));
        assert(push_rank::<D>(ctx1)(t) > push_rank::<D>(ctx1)(s));
        lemma_final_values_agree_reordered::<D, E>(ctx1, ctx2, sources, first, second, s);
    }
    lemma_sent_by_all_agrees::<D>(ctx1, b, g, f, t);
    lemma_sent_by_all_same::<D, E>(ctx1, ctx2, b, g, t);
    let start = start_of::<D>(ctx1, a, t);
    assert(start == start_of::<E>(ctx2, b, t));
    lemma_folded_same::<D, E>(ctx1, ctx2, start, sent_by_all::<E>(ctx2, b, g, t));
    lemma_any_order::<D>(ctx1, start, a, b, f, t);
}

/// Where the operation of the monoid is associative and commutative, a
/// problem and the problem with its successor lists reordered leave the
/// same table behind, whatever their schedules: the outcome of a
/// propagation does not depend on the order in which a state lists its
/// successors.
pub proof fn lemma_push_result_ignores_successor_order<
    D: PushDPRules,
    E: PushDPRules<State = D::State, Value = D::Value>,
>(
    ctx1: &D::Ctx,
    ctx2: &E::Ctx,
    sources: Seq<D::State>,
    first: Seq<(usize, D::State)>,
    second: Seq<(usize, D::State)>,
)
    requires
        op_is_commutative::<D>(ctx1),
        same_up_to_successor_order::<D, E>(ctx1, ctx2),
        ranks_rise(push_next::<D>(ctx1), push_rank::<D>(ctx1), sources),
        is_schedule(push_next::<D>(ctx1), push_rank::<D>(ctx1), sources, first),
        is_schedule(push_next::<E>(ctx2), push_rank::<E>(ctx2), sources, second),
    ensures
        push_result::<D>(ctx1, first) == push_result::<E>(ctx2, second),
{
    let next1 = push_next::<D>(ctx1);
    let next2 = push_next::<E>(ctx2);
    assert forall|s: D::State, t: D::State| #[trigger]
        next1(s).contains(t) <==> next2(s).contains(t) by {
        lemma_times_named(next1(s), t);
        lemma_times_named(next2(s), t);
    }
    assert forall|s: D::State| reachable(next1, sources, s) <==> reachable(next2, sources, s) by {
        if reachable(next1, sources, s) {
            lemma_reachable_same::<D, E>(ctx1, ctx2, sources, s);
        }
        if reachable(next2, sources, s) {
            lemma_reachable_back::<D, E>(ctx1, ctx2, sources, s);
        }
    }
    assert(ranks_rise(next2, push_rank::<E>(ctx2), sources)) by {
        assert forall|s: D::State, t: D::State|
            reachable(next2, sources, s) && #[trigger] next2(s).contains(t) implies push_rank::<E>(
            ctx2,
        )(t) > push_rank::<E>(ctx2)(s) by {
            assert(next1(s).contains(t));
            assert(push_rank::<D>(ctx1)(t) > push_rank::<D>(ctx1)(s));
        }
    }
    let r1 = push_result::<D>(ctx1, first);
    let r2 = push_result::<E>(ctx2, second);
    let a = states_of(first);
    let b = states_of(second);
    assert forall|s: D::State| a.contains(s) <==> b.contains(s) by {
        assert(a.contains(s) <==> reachable(next1, sources, s));
        assert(b.contains(s) <==> reachable(next2, sources, s));
    }
    assert forall|t: D::State| r1.contains_key(t) <==> r2.contains_key(t) by {
        lemma_bound_states::<D>(ctx1, first, seeded::<D>(ctx1, first), t);
        lemma_bound_states::<E>(ctx2, second, seeded::<E>(ctx2, second), t);
        lemma_seeded::<D>(ctx1, first, t);
        lemma_seeded::<E>(ctx2, second, t);
        if exists|s: D::State| a.contains(s) && #[trigger] next1(s).contains(t) {
            let s = choose|s: D::State| a.contains(s) && #[trigger] next1(s).contains(t);
            assert(b.contains(s) && next2(s).contains(t));
        }
        if exists|s: D::State| b.contains(s) && #[trigger] next2(s).contains(t) {
            let s = choose|s: D::State| b.contains(s) && #[trigger] next2(s).contains(t);
            assert(a.contains(s) && next1(s).contains(t));
        }
    }
    assert forall|t: D::State| r1.contains_key(t) implies r1[t] == r2[t] by {
        lemma_final_values_agree_reordered::<D, E>(ctx1, ctx2, sources, first, second, t);
    }
    assert(r1 =~= r2);
}

/// The other direction of `lemma_reachable_same`.
pub proof fn lemma_reachable_back<
    D: PushDPRules,
    E: PushDPRules<State = D::State, Value = D::Value>,
>(ctx1: &D::Ctx, ctx2: &E::Ctx, sources: Seq<D::State>, s: D::State)
    requires
        same_up_to_successor_order::<D, E>(ctx1, ctx2),
        reachable(push_next::<E>(ctx2), sources, s),
    ensures
        reachable(push_next::<D>(ctx1), sources, s),
{
    let next1 = push_next::<D>(ctx1);
    let next2 = push_next::<E>(ctx2);
    let w = choose|w: Seq<D::State>| #[trigger] super::discovery::walks_to(next2, sources, w, s);
    assert forall|i: int| 0 <= i < w.len() - 1 implies next1(#[trigger] w[i]).contains(w[i + 1]) by {
        assert(next2(w[i]).contains(w[i + 1]));
        lemma_times_named(next1(w[i]), w[i + 1]);
        lemma_times_named(next2(w[i]), w[i + 1]);
    }
    assert(super::discovery::walks_to(next1, sources, w, s));
}

} // verus!
