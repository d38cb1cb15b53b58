//! Digit dynamic programming: counting the numerals up to a bound that a
//! caller-defined automaton accepts.
//!
//! A numeral is built digit by digit, most significant first. The automaton
//! says which digits may follow in which state; the engine keeps track of
//! whether the numeral built so far still equals the bound's prefix, and
//! remembers the count for every position, tightness and state it has met.

use crate::fx::{fx_get, fx_insert};
use crate::values::clone_is_exact;
use rustc_hash::FxHashMap;
use std::hash::Hash;
use vstd::prelude::*;
use vstd::std_specs::hash::obeys_key_model;

verus! {

/// Counts are reported modulo this prime.
pub const MOD: usize = 1_000_000_007;

/// The rules of one digit problem.
///
/// `init` is the state before any digit. `transition` lists the digits that
/// may stand at position `i` in `state`, each with the state it leads to;
/// `lim` is the largest digit that keeps the numeral within the bound, and
/// `tight` says whether the bound still binds. `is_accept` says whether a
/// numeral that ends in `state` counts.
pub trait DigitDPRules {
    type State: Clone + Eq + Hash;

    fn init(&self) -> Self::State;

    fn transition(&self, i: usize, tight: bool, state: &Self::State, lim: u32) -> Vec<
        (u32, Self::State),
    >;

    fn is_accept(&self, state: &Self::State) -> bool;
}

/// Each rule of `problem` is a function: what it returns is fixed by what
/// it is given.
pub open spec fn digit_rules_are_functions<P: DigitDPRules>(problem: &P) -> bool {
    &&& forall|a: P::State, b: P::State|
        #[trigger] call_ensures(P::init, (problem,), a) && #[trigger] call_ensures(P::init, (problem,), b)
            ==> a == b
    &&& forall|i: usize, tight: bool, s: P::State, lim: u32, a: Vec<(u32, P::State)>, b: Vec<(u32, P::State)>|
        #[trigger] call_ensures(P::transition, (problem, i, tight, &s, lim), a) && #[trigger] call_ensures(P::transition, (problem, i, tight, &s, lim), b)
            ==> a@ == b@
    &&& forall|s: P::State, a: bool, b: bool|
        #[trigger] call_ensures(P::is_accept, (problem, &s), a) && #[trigger] call_ensures(P::is_accept, (problem, &s), b)
            ==> a == b
}

/// The state before any digit.
pub open spec fn digit_init<P: DigitDPRules>(problem: &P) -> P::State {
    choose|s: P::State| call_ensures(P::init, (problem,), s)
}

/// The digits that may stand at position `i` in `state`, each with the
/// state it leads to.
pub open spec fn digit_transition<P: DigitDPRules>(
    problem: &P,
    i: usize,
    tight: bool,
    state: P::State,
    lim: u32,
) -> Seq<(u32, P::State)> {
    (choose|ts: Vec<(u32, P::State)>|
        call_ensures(P::transition, (problem, i, tight, &state, lim), ts))@
}

/// Whether a numeral that ends in `state` counts.
pub open spec fn digit_accepts<P: DigitDPRules>(problem: &P, state: P::State) -> bool {
    choose|b: bool| call_ensures(P::is_accept, (problem, &state), b)
}

/// The value of a decimal digit character.
pub open spec fn digit_value(c: char) -> u32 {
    ((c as u32) - ('0' as u32)) as u32
}

/// `s` is made of decimal digits only.
pub open spec fn is_numeral(s: Seq<char>) -> bool {
    forall|i: int| 0 <= i < s.len() ==> '0' <= #[trigger] s[i] <= '9'
}

/// The digits of a numeral, most significant first.
pub open spec fn digits_of(s: Seq<char>) -> Seq<u32> {
    s.map_values(|c: char| digit_value(c))
}

/// The largest digit allowed at position `i`.
pub open spec fn limit_at(digits: Seq<u32>, i: nat, tight: bool) -> u32 {
    if tight {
        digits[i as int]
    } else {
        9
    }
}

/// The number of accepted ways, modulo `MOD`, to complete a numeral from
/// position `i` on, in `state`, where `tight` says whether the digits so far
/// equal the bound's.
pub open spec fn digit_count<P: DigitDPRules>(
    problem: &P,
    digits: Seq<u32>,
    i: nat,
    tight: bool,
    state: P::State,
) -> nat
    decreases digits.len() - i, usize::MAX + 1,
{
    if i >= digits.len() {
        if digit_accepts(problem, state) {
            1
        } else {
            0
        }
    } else {
        let lim = limit_at(digits, i, tight);
        let ts = digit_transition(problem, i as usize, tight, state, lim);
        digit_count_over::<P>(problem, digits, i, tight, ts, ts.len())
    }
}

/// The sum, modulo `MOD`, over the first `n` transitions in `ts` of the
/// counts that they lead to.
pub open spec fn digit_count_over<P: DigitDPRules>(
    problem: &P,
    digits: Seq<u32>,
    i: nat,
    tight: bool,
    ts: Seq<(u32, P::State)>,
    n: nat,
) -> nat
    decreases digits.len() - i, (if n <= usize::MAX { n } else { 0 }),
{
    if i >= digits.len() || n == 0 || n > ts.len() || n > usize::MAX {
        0
    } else {
        let (d, next_state) = ts[n - 1];
        let next_tight = tight && d == limit_at(digits, i, tight);
        let rest = digit_count_over::<P>(problem, digits, i, tight, ts, (n - 1) as nat);
        (rest + digit_count::<P>(problem, digits, i + 1, next_tight, next_state)) % (MOD as nat)
    }
}

/// Every count is below `MOD`.
pub proof fn lemma_digit_count_bounded<P: DigitDPRules>(
    problem: &P,
    digits: Seq<u32>,
    i: nat,
    tight: bool,
    state: P::State,
)
    ensures
        digit_count::<P>(problem, digits, i, tight, state) < MOD,
{
    if i < digits.len() {
        let lim = limit_at(digits, i, tight);
        let ts = digit_transition(problem, i as usize, tight, state, lim);
        lemma_digit_count_over_bounded::<P>(problem, digits, i, tight, ts, ts.len());
    }
}

/// Every partial sum of counts is below `MOD`.
pub proof fn lemma_digit_count_over_bounded<P: DigitDPRules>(
    problem: &P,
    digits: Seq<u32>,
    i: nat,
    tight: bool,
    ts: Seq<(u32, P::State)>,
    n: nat,
)
    ensures
        digit_count_over::<P>(problem, digits, i, tight, ts, n) < MOD,
{
}

/// What the memo table may hold: under the key of a position, a tightness
/// and a state, the count for them.
spec fn memo_is_sound<P: DigitDPRules>(
    problem: &P,
    digits: Seq<u32>,
    memo: Map<(usize, bool, P::State), usize>,
) -> bool {
    forall|key: (usize, bool, P::State)| #[trigger]
        memo.contains_key(key) ==> memo[key] == digit_count::<P>(
            problem,
            digits,
            key.0 as nat,
            key.1,
            key.2,
        )
}

/// The count for position `i`, tightness `tight` and `state`, by recursion
/// over the positions, with every answer remembered in `memo`.
fn dfs<P: DigitDPRules>(
    i: usize,
    tight: bool,
    state: &P::State,
    digits: &Vec<u32>,
    n: usize,
    memo: &mut FxHashMap<(usize, bool, P::State), usize>,
    problem: &P,
) -> (res: usize)
    requires
        obeys_key_model::<(usize, bool, P::State)>(),
        clone_is_exact::<P::State>(),
        digit_rules_are_functions(problem),
        n == digits@.len(),
        i <= n,
        memo_is_sound::<P>(problem, digits@, old(memo)@),
    ensures
        res == digit_count::<P>(problem, digits@, i as nat, tight, *state),
        memo_is_sound::<P>(problem, digits@, final(memo)@),
    decreases n - i,
{
    if i == n {
        return if problem.is_accept(state) {
            1
        } else {
            0
        };
    }
    let key = (i, tight, state.clone());
    match fx_get(memo, &key) {
        Some(res) => {
            return *res;
        },
        None => {},
    }
    let lim = if tight {
        digits[i]
    } else {
        9
    };
    let ts = problem.transition(i, tight, state, lim);
    let mut res: usize = 0;
    let mut j: usize = 0;
    while j < ts.len()
        invariant
            obeys_key_model::<(usize, bool, P::State)>(),
            clone_is_exact::<P::State>(),
            digit_rules_are_functions(problem),
            ts@ == digit_transition(problem, i, tight, *state, lim),
            n == digits@.len(),
            i < n,
            lim == limit_at(digits@, i as nat, tight),
            j <= ts.len(),
            res == digit_count_over::<P>(problem, digits@, i as nat, tight, ts@, j as nat),
            memo_is_sound::<P>(problem, digits@, memo@),
        decreases ts.len() - j,
    {
        let d = ts[j].0;
        let next_tight = tight && d == lim;
        let sub = dfs(i + 1, next_tight, &ts[j].1, digits, n, memo, problem);
        proof {
            lemma_digit_count_bounded::<P>(problem, digits@, (i + 1) as nat, next_tight, ts@[j as int].1);
            lemma_digit_count_over_bounded::<P>(problem, digits@, i as nat, tight, ts@, j as nat);
        }
        res = (res + sub) % MOD;
        j += 1;
    }
    fx_insert(memo, key, res);
    res
}

/// Reads a numeral into its digits.
fn read_digits(upper: &str) -> (digits: Vec<u32>)
    requires
        is_numeral(upper@),
    ensures
        digits@ == digits_of(upper@),
{
    let mut digits: Vec<u32> = Vec::new();
    for c in it: upper.chars()
        invariant
            it.seq() == upper@,
            is_numeral(upper@),
            digits@ == digits_of(upper@.take(it.index() as int)),
    {
        proof {
            let k = it.index() as int;
            assert(upper@.take(k + 1) =~= upper@.take(k).push(upper@[k]));
            assert(digits_of(upper@.take(k + 1)) =~= digits_of(upper@.take(k)).push(
                digit_value(upper@[k]),
            ));
        }
        digits.push((c as u32) - ('0' as u32));
    }
    assert(upper@.take(upper@.len() as int) =~= upper@);
    digits
}

pub struct DigitDP;

impl DigitDP {
    /// Counts, modulo `MOD`, the numerals from zero to `upper` that the
    /// problem accepts, where a numeral has as many digits as `upper` and the
    /// problem's transitions say which digits it may hold.
    pub fn solve<P: DigitDPRules>(upper: &str, problem: &P) -> (count: usize)
        requires
            obeys_key_model::<(usize, bool, P::State)>(),
            clone_is_exact::<P::State>(),
            digit_rules_are_functions(problem),
            is_numeral(upper@),
        ensures
            count == digit_count::<P>(problem, digits_of(upper@), 0, true, digit_init(problem)),
    {
        let digits = read_digits(upper);
        let n = digits.len();
        let mut memo: FxHashMap<(usize, bool, P::State), usize> = FxHashMap::default();
        let init_state = problem.init();
        dfs(0, true, &init_state, &digits, n, &mut memo, problem)
    }
}

/// Ten to the power `k`.
pub open spec fn pow10(k: nat) -> nat
    decreases k,
{
    if k == 0 {
        1
    } else {
        10 * pow10((k - 1) as nat)
    }
}

/// The number that a sequence of decimal digits denotes, most significant
/// digit first.
pub open spec fn number_of(digits: Seq<u32>) -> nat
    decreases digits.len(),
{
    if digits.len() == 0 {
        0
    } else {
        digits[0] as nat * pow10((digits.len() - 1) as nat) + number_of(digits.drop_first())
    }
}

/// The problem accepts every state and offers, wherever it stands, each
/// digit from zero to the limit once, in ascending order.
pub open spec fn offers_every_digit<P: DigitDPRules>(problem: &P) -> bool {
    &&& forall|s: P::State| #[trigger] digit_accepts(problem, s)
    &&& forall|i: usize, tight: bool, s: P::State, lim: u32|
        lim <= 9 ==> (#[trigger] digit_transition(problem, i, tight, s, lim)).len() == lim + 1
    &&& forall|i: usize, tight: bool, s: P::State, lim: u32, d: int|
        lim <= 9 && 0 <= d <= lim ==> (#[trigger] digit_transition(problem, i, tight, s, lim)[d]).0
            == d
}

/// What a problem that offers every digit counts from position `i` on:
/// while the bound binds, the numbers up to the rest of the bound; once it
/// does not, every numeral of the remaining length.
pub open spec fn numerals_from(digits: Seq<u32>, i: nat, tight: bool) -> nat {
    if tight {
        number_of(digits.skip(i as int)) + 1
    } else {
        pow10((digits.len() - i) as nat)
    }
}

proof fn lemma_counts_all_from<P: DigitDPRules>(
    problem: &P,
    digits: Seq<u32>,
    i: nat,
    tight: bool,
    state: P::State,
)
    requires
        offers_every_digit(problem),
        forall|k: int| 0 <= k < digits.len() ==> #[trigger] digits[k] <= 9,
        i <= digits.len(),
    ensures
        digit_count::<P>(problem, digits, i, tight, state) == numerals_from(digits, i, tight) % (
        MOD as nat),
    decreases digits.len() - i, 11nat,
{
    if i >= digits.len() {
        assert(digits.skip(i as int).len() == 0);
        assert(digit_accepts(problem, state));
    } else {
        let lim = limit_at(digits, i, tight);
        let ts = digit_transition(problem, i as usize, tight, state, lim);
        lemma_counts_all_over::<P>(problem, digits, i, tight, state, ts.len());
        let p = pow10((digits.len() - i - 1) as nat);
        let rest = digits.skip(i as int);
        assert(rest.drop_first() =~= digits.skip(i as int + 1));
        assert(rest[0] == digits[i as int]);
        if tight {
            assert(number_of(rest) == lim as nat * p + number_of(digits.skip(i as int + 1)));
        } else {
            assert(pow10((digits.len() - i) as nat) == 10 * p);
        }
    }
}

proof fn lemma_counts_all_over<P: DigitDPRules>(
    problem: &P,
    digits: Seq<u32>,
    i: nat,
    tight: bool,
    state: P::State,
    n: nat,
)
    requires
        offers_every_digit(problem),
        forall|k: int| 0 <= k < digits.len() ==> #[trigger] digits[k] <= 9,
        i < digits.len(),
        n <= limit_at(digits, i, tight) + 1,
    ensures
        ({
            let lim = limit_at(digits, i, tight);
            let ts = digit_transition(problem, i as usize, tight, state, lim);
            let p = pow10((digits.len() - i - 1) as nat);
            let total = if tight && n == lim + 1 {
                lim as nat * p + number_of(digits.skip(i as int + 1)) + 1
            } else {
                n * p
            };
            digit_count_over::<P>(problem, digits, i, tight, ts, n) == total % (MOD as nat)
        }),
    decreases digits.len() - i, n,
{
    let lim = limit_at(digits, i, tight);
    let ts = digit_transition(problem, i as usize, tight, state, lim);
    let p = pow10((digits.len() - i - 1) as nat);
    let m = MOD as nat;
    assert(lim <= 9);
    assert(ts.len() == lim + 1);
    if n == 0 {
        assert(0nat * p == 0) by (nonlinear_arith);
    } else {
        let d = ts[n - 1].0;
        let next_state = ts[n - 1].1;
        assert(d == n - 1);
        let next_tight = tight && d == lim;
        lemma_counts_all_over::<P>(problem, digits, i, tight, state, (n - 1) as nat);
        lemma_counts_all_from::<P>(problem, digits, i + 1, next_tight, next_state);
        let before = (n - 1) as nat * p;
        let here = numerals_from(digits, i + 1, next_tight);
        assert(digit_count_over::<P>(problem, digits, i, tight, ts, (n - 1) as nat) == before % m);
        assert(digit_count_over::<P>(problem, digits, i, tight, ts, n) == ((before % m) + (here
            % m)) % m);
        vstd::arithmetic::div_mod::lemma_add_mod_noop(before as int, here as int, m as int);
        if next_tight {
            assert(before == lim as nat * p);
        } else {
            assert(here == p);
            assert(before + p == n * p) by (nonlinear_arith)
                requires
                    before == (n - 1) * p,
                    n >= 1,
            ;
        }
    }
}

/// A problem that accepts everything and offers every digit counts every
/// number from zero up to the bound: one more than the bound, modulo `MOD`.
pub proof fn lemma_counts_all_numbers<P: DigitDPRules>(problem: &P, digits: Seq<u32>)
    requires
        offers_every_digit(problem),
        forall|k: int| 0 <= k < digits.len() ==> #[trigger] digits[k] <= 9,
    ensures
        digit_count::<P>(problem, digits, 0, true, digit_init(problem)) == (number_of(digits) + 1)
            % (MOD as nat),
{
    lemma_counts_all_from::<P>(problem, digits, 0, true, digit_init(problem));
    assert(digits.skip(0) =~= digits);
}

} // verus!
