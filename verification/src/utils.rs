//! Small helpers: digits in a base, bits as text, palindromes.

pub use crate::compress::Compress;

use crate::bit_vec::bit_of;
use vstd::prelude::*;
use vstd::std_specs::cmp::PartialEqSpec;

verus! {

/// Turns a vector of digits round, in place.
fn reverse_digits(digits: &mut Vec<usize>)
    ensures
        final(digits)@ == old(digits)@.reverse(),
{
    let ghost before = digits@;
    let n = digits.len();
    let mut i: usize = 0;
    while i < n / 2
        invariant
            n == before.len(),
            digits@.len() == n,
            i <= n / 2,
            forall|k: int| 0 <= k < i ==> #[trigger] digits@[k] == before[n - 1 - k],
            forall|k: int| n - i <= k < n ==> #[trigger] digits@[k] == before[n - 1 - k],
            forall|k: int| i <= k < n - i ==> #[trigger] digits@[k] == before[k],
        decreases n / 2 - i,
    {
        let front = digits[i];
        let back = digits[n - 1 - i];
        digits[i] = back;
        digits[n - 1 - i] = front;
        i += 1;
    }
    assert(digits@ =~= before.reverse());
}

/// The character that stands for a bit.
pub open spec fn bit_char(b: bool) -> char {
    if b {
        '1'
    } else {
        '0'
    }
}

/// Appends the character of a bit to a text.
fn push_bit(s: &mut String, b: bool)
    ensures
        final(s)@ == old(s)@.push(bit_char(b)),
{
    proof {
        reveal_strlit("1");
        reveal_strlit("0");
    }
    if b {
        s.append("1");
        assert(s@ =~= old(s)@.push('1'));
    } else {
        s.append("0");
        assert(s@ =~= old(s)@.push('0'));
    }
}

/// Bits as text: `1` for a set bit, `0` for a clear one, first bit first.
pub fn fmt_bitvec(bits: &[bool]) -> (s: String)
    ensures
        s@ == bits@.map_values(|b: bool| bit_char(b)),
{
    let mut s = String::new();
    let mut i: usize = 0;
    while i < bits.len()
        invariant
            i <= bits@.len(),
            s@ == bits@.take(i as int).map_values(|b: bool| bit_char(b)),
        decreases bits@.len() - i,
    {
        push_bit(&mut s, bits[i]);
        proof {
            assert(bits@.take(i + 1) =~= bits@.take(i as int).push(bits@[i as int]));
            assert(s@ =~= bits@.take(i + 1).map_values(|b: bool| bit_char(b)));
        }
        i += 1;
    }
    assert(bits@.take(bits@.len() as int) =~= bits@);
    s
}

/// The low thirty bits of `bits` as text, most significant first.
pub fn fmt_u2bit(bits: usize) -> (s: String)
    ensures
        s@.len() == 30,
        forall|k: int| 0 <= k < 30 ==> #[trigger] s@[k] == bit_char(bit_of(bits as nat, (29 - k) as nat)),
{
    let mut s = String::new();
    let mut i: usize = 30;
    while i > 0
        invariant
            i <= 30,
            s@.len() == 30 - i,
            forall|k: int|
                0 <= k < 30 - i ==> #[trigger] s@[k] == bit_char(bit_of(bits as nat, (29 - k) as nat)),
        decreases i,
    {
        i -= 1;
        proof {
            crate::bit_vec::lemma_bit_test(bits, i);
        }
        push_bit(&mut s, (bits >> i) & 1 == 1);
    }
    s
}

/// Whether `items` reads the same from both ends: whether each of its
/// elements equals the one that stands as far from the other end.
pub fn is_palindrome<T: PartialEq>(items: Vec<T>) -> (b: bool)
    ensures
        T::obeys_eq_spec() ==> b == forall|i: int|
            0 <= i < items@.len() ==> (#[trigger] items@[i]).eq_spec(&items@[items@.len() - 1 - i]),
{
    let n = items.len();
    let mut i: usize = 0;
    while i < n
        invariant
            n == items@.len(),
            i <= n,
            T::obeys_eq_spec() ==> forall|k: int|
                0 <= k < i ==> (#[trigger] items@[k]).eq_spec(&items@[n - 1 - k]),
        decreases n - i,
    {
        if !(items[i] == items[n - 1 - i]) {
            return false;
        }
        i += 1;
    }
    true
}

/// The digits of `n` in base `base`, least significant first; none for
/// zero.
pub open spec fn digits_lsb(n: nat, base: nat) -> Seq<usize>
    decreases n,
{
    if n == 0 || base < 2 || n / base >= n {
        Seq::empty()
    } else {
        seq![(n % base) as usize] + digits_lsb(n / base, base)
    }
}

/// The number that `digits` denote in base `base`, most significant digit
/// first.
pub open spec fn digits_value(digits: Seq<usize>, base: nat) -> nat
    decreases digits.len(),
{
    if digits.len() == 0 {
        0
    } else {
        digits_value(digits.drop_last(), base) * base + digits.last() as nat
    }
}

/// The digits of a number denote it, each is less than the base, and the
/// most significant is not zero.
pub proof fn lemma_digits(n: nat, base: nat)
    requires
        base >= 2,
        n <= usize::MAX,
    ensures
        digits_value(digits_lsb(n, base).reverse(), base) == n,
        forall|i: int| 0 <= i < digits_lsb(n, base).len() ==> #[trigger] digits_lsb(n, base)[i] < base,
        n > 0 ==> digits_lsb(n, base).len() > 0 && digits_lsb(n, base).last() != 0,
    decreases n,
{
    if n > 0 {
        let rest = digits_lsb(n / base, base);
        let all = digits_lsb(n, base);
        assert(n / base < n) by (nonlinear_arith)
            requires
                n > 0,
                base >= 2,
        ;
        lemma_digits(n / base, base);
        assert(all =~= seq![(n % base) as usize] + rest);
        assert(all.reverse().drop_last() =~= rest.reverse());
        assert(all.reverse().last() == (n % base) as usize);
        assert(n == (n / base) * base + n % base) by (nonlinear_arith)
            requires
                base >= 2,
        ;
        if n / base == 0 {
            assert(rest.len() == 0);
            assert(all.last() == (n % base) as usize);
        } else {
            assert(all.last() == rest.last());
        }
    } else {
        assert(digits_lsb(n, base).reverse() =~= Seq::<usize>::empty());
    }
}

/// The digits of `n` in base `base`, most significant first; the single
/// digit zero for zero.
pub fn to_base(n: usize, base: usize) -> (digits: Vec<usize>)
    requires
        base >= 2,
    ensures
        digits@ == if n == 0 {
            seq![0usize]
        } else {
            digits_lsb(n as nat, base as nat).reverse()
        },
{
    if n == 0 {
        return vec![0];
    }
    let mut n = n;
    let ghost n0 = n as nat;
    let mut digits: Vec<usize> = Vec::new();
    while n > 0
        invariant
            base >= 2,
            digits@ + digits_lsb(n as nat, base as nat) == digits_lsb(n0, base as nat),
        decreases n,
    {
        proof {
            let rest = digits_lsb((n / base) as nat, base as nat);
            assert((n as nat) / (base as nat) < (n as nat)) by (nonlinear_arith)
                requires
                    n > 0,
                    base >= 2,
            ;
            assert(digits_lsb(n as nat, base as nat) =~= seq![(n % base) as usize] + rest);
            assert(digits@.push(n % base) + rest =~= digits@ + (seq![(n % base) as usize] + rest));
        }
        digits.push(n % base);
        n /= base;
    }
    assert(digits@ =~= digits_lsb(n0, base as nat)) by {
        assert(digits_lsb(0, base as nat) =~= Seq::<usize>::empty());
    }
    reverse_digits(&mut digits);
    digits
}

} // verus!
