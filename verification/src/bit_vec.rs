//! Bit vectors of up to one machine word, and their enumeration.
//!
//! A bit vector is a number together with a width. Positions count from the
//! most significant of its bits: position 0 of a vector of width `n` is the
//! bit of weight `2^(n-1)`.

use std::ops::{Add, BitAnd, BitOr, BitXor};
use vstd::arithmetic::power2::pow2;
use vstd::prelude::*;
use vstd::std_specs::convert::FromSpecImpl;
use vstd::std_specs::ops::{AddSpecImpl, BitAndSpecImpl, BitOrSpecImpl, BitXorSpecImpl};

verus! {

/// Whether the bit of weight `2^k` is set in `x`.
pub open spec fn bit_of(x: nat, k: nat) -> bool {
    (x / pow2(k)) % 2 == 1
}

/// `x` with the bit of weight `2^k` set or cleared.
pub open spec fn with_bit(x: nat, k: nat, on: bool) -> nat {
    if bit_of(x, k) == on {
        x
    } else if on {
        x + pow2(k)
    } else {
        (x - pow2(k)) as nat
    }
}

/// The weight of position `i` in a vector of width `n`.
pub open spec fn weight_at(n: nat, i: nat) -> nat {
    (n - 1 - i) as nat
}

/// Shifting one to the left by `k` gives `2^k`.
pub proof fn lemma_one_shifted(k: usize)
    requires
        k < usize::BITS,
    ensures
        (1usize << k) == pow2(k as nat),
        0 < pow2(k as nat) <= usize::MAX,
{
    vstd::bits::lemma_usize_pow2_no_overflow(k as nat);
    vstd::bits::lemma_usize_shl_is_mul(1usize, k);
}

/// Masking with the low `n` bits is the remainder modulo `2^n`.
pub proof fn lemma_masked(x: usize, n: usize)
    requires
        n < usize::BITS,
    ensures
        x & (((1usize << n) - 1) as usize) == x as nat % pow2(n as nat),
{
    lemma_one_shifted(n);
    vstd::bits::lemma_usize_low_bits_mask_is_mod(x, n as nat);
    assert(vstd::bits::low_bits_mask(n as nat) == pow2(n as nat) - 1);
}

/// The lowest bit of a shifted word is the bit of that weight.
pub proof fn lemma_bit_test(x: usize, k: usize)
    requires
        k < usize::BITS,
    ensures
        ((x >> k) & 1 == 1) == bit_of(x as nat, k as nat),
{
    vstd::bits::lemma_usize_shr_is_div(x, k);
    let y = x >> k;
    assert(y & 1 == y % 2) by (bit_vector);
}

/// Or-ing in a bit sets it.
pub proof fn lemma_set_bit(x: usize, k: usize)
    requires
        k < usize::BITS,
    ensures
        (x | (1usize << k)) == with_bit(x as nat, k as nat, true),
{
    lemma_bit_test(x, k);
    lemma_one_shifted(k);
    assert((x >> k) & 1 == 1 ==> (x | (1usize << k)) == x) by (bit_vector)
        requires
            k < usize::BITS,
    ;
    assert((x >> k) & 1 != 1 ==> (x | (1usize << k)) == x + (1usize << k)) by (bit_vector)
        requires
            k < usize::BITS,
    ;
}

/// And-ing with the complement of a bit clears it.
pub proof fn lemma_clear_bit(x: usize, k: usize)
    requires
        k < usize::BITS,
    ensures
        (x & !(1usize << k)) == with_bit(x as nat, k as nat, false),
{
    lemma_bit_test(x, k);
    lemma_one_shifted(k);
    assert((x >> k) & 1 != 1 ==> (x & !(1usize << k)) == x) by (bit_vector)
        requires
            k < usize::BITS,
    ;
    assert((x >> k) & 1 == 1 ==> (x & !(1usize << k)) == x - (1usize << k)) by (bit_vector)
        requires
            k < usize::BITS,
    ;
}

#[derive(Clone, Copy, Debug, PartialEq, Eq)]
pub struct BitVec {
    data: usize,
    n: usize,
}

impl BitVec {
    /// The number that the bits denote.
    pub closed spec fn value(self) -> nat {
        self.data as nat
    }

    /// The number of bits.
    pub closed spec fn width(self) -> nat {
        self.n as nat
    }

    /// The bit vector of number `value` and width `width`.
    pub closed spec fn of(value: nat, width: nat) -> BitVec {
        BitVec { data: value as usize, n: width as usize }
    }

    /// A bit vector is told by its number and its width.
    pub proof fn lemma_of(self)
        ensures
            self == BitVec::of(self.value(), self.width()),
    {
    }

    /// The bit at position `i`, counted from the most significant bit.
    pub open spec fn bit(self, i: nat) -> bool {
        bit_of(self.value(), weight_at(self.width(), i))
    }

    /// The vector of `n` zero bits.
    pub fn new(n: usize) -> (r: Self)
        ensures
            r.value() == 0,
            r.width() == n,
    {
        Self { data: 0, n }
    }

    /// The vector of the low `n` bits of `data`.
    pub fn from_usize(data: usize, n: usize) -> (r: Self)
        requires
            n < usize::BITS,
        ensures
            r.value() == data as nat % pow2(n as nat),
            r.width() == n,
            data < pow2(n as nat) ==> r.value() == data,
    {
        proof {
            lemma_one_shifted(n);
            lemma_masked(data, n);
            if data < pow2(n as nat) {
                vstd::arithmetic::div_mod::lemma_small_mod(data as nat, pow2(n as nat));
            }
        }
        Self { data: data & ((1 << n) - 1), n }
    }

    /// The number that the bits denote.
    pub fn to_usize(self) -> (v: usize)
        ensures
            v == self.value(),
    {
        self.data
    }

    /// The number of bits.
    pub fn len(self) -> (n: usize)
        ensures
            n == self.width(),
    {
        self.n
    }

    /// Whether there are no bits.
    pub fn is_empty(self) -> (b: bool)
        ensures
            b == (self.width() == 0),
    {
        self.n == 0
    }

    /// The bit at position `i`, counted from the most significant bit.
    pub fn get(self, i: usize) -> (b: bool)
        requires
            i < self.width(),
            self.width() - 1 - i < usize::BITS,
        ensures
            b == self.bit(i as nat),
    {
        proof {
            lemma_bit_test(self.data, (self.n - 1 - i) as usize);
        }
        (self.data >> (self.n - 1 - i)) & 1 == 1
    }

    /// The vector of width `n` whose only set bit is at position `i`.
    pub fn unit(i: usize, n: usize) -> (r: Self)
        requires
            i < n < usize::BITS,
        ensures
            r.value() == pow2(weight_at(n as nat, i as nat)),
            r.width() == n,
    {
        proof {
            lemma_one_shifted((n - 1 - i) as usize);
            lemma_one_shifted(n);
            vstd::arithmetic::power2::lemma_pow2_strictly_increases((n - 1 - i) as nat, n as nat);
        }
        Self::from_usize(1 << (n - 1 - i), n)
    }

    /// The bits as an iterator, most significant bit first.
    pub fn iter(self) -> (it: BitVecIter)
        ensures
            it.source() == self,
            it.position() == 0,
    {
        BitVecIter { data: self.data, n: self.n, pos: 0 }
    }

    /// The bits as an iterator, most significant bit first.
    pub fn into_iter(self) -> (it: BitVecIter)
        ensures
            it.source() == self,
            it.position() == 0,
    {
        self.iter()
    }

    /// The vector with the bit at position `i` set to `value`, and cut to
    /// its width.
    pub fn set(self, i: usize, value: u8) -> (r: Self)
        requires
            i < self.width() < usize::BITS,
            value == 0 || value == 1,
        ensures
            r.value() == with_bit(self.value(), weight_at(self.width(), i as nat), value == 1) % pow2(
                self.width(),
            ),
            r.width() == self.width(),
    {
        let shift = self.n - 1 - i;
        let mask: usize = 1 << shift;
        proof {
            lemma_set_bit(self.data, shift);
            lemma_clear_bit(self.data, shift);
        }
        let new_data = if value == 0 {
            self.data & !mask
        } else {
            self.data | mask
        };
        Self::from_usize(new_data, self.n)
    }

    /// Sets the bit at position `i` to `value`, in place.
    pub fn set_mut(&mut self, i: usize, value: u8)
        requires
            i < old(self).width(),
            old(self).width() - 1 - i < usize::BITS,
            value == 0 || value == 1,
        ensures
            final(self).value() == with_bit(
                old(self).value(),
                weight_at(old(self).width(), i as nat),
                value == 1,
            ),
            final(self).width() == old(self).width(),
    {
        let shift = self.n - 1 - i;
        let mask: usize = 1 << shift;
        proof {
            lemma_set_bit(self.data, shift);
            lemma_clear_bit(self.data, shift);
        }
        if value == 0 {
            self.data = self.data & !mask;
        } else {
            self.data = self.data | mask;
        }
    }

    /// The vector of `n` set bits.
    pub fn mask(n: usize) -> (r: Self)
        requires
            n < usize::BITS,
        ensures
            r.value() == pow2(n as nat) - 1,
            r.width() == n,
    {
        proof {
            lemma_one_shifted(n);
        }
        Self { data: (1 << n) - 1, n }
    }

    /// The bits as text, most significant bit first: `1` for a set bit and
    /// `0` for a clear one.
    pub fn to_string(&self) -> (s: String)
        requires
            self.width() <= usize::BITS,
        ensures
            s@.len() == self.width(),
            forall|i: int|
                0 <= i < self.width() ==> #[trigger] s@[i] == if self.bit(i as nat) {
                    '1'
                } else {
                    '0'
                },
    {
        let mut s = String::new();
        let mut i: usize = 0;
        proof {
            reveal_strlit("1");
            reveal_strlit("0");
        }
        while i < self.n
            invariant
                i <= self.n,
                self.n <= usize::BITS,
                "1"@ == seq!['1'],
                "0"@ == seq!['0'],
                s@.len() == i,
                forall|k: int|
                    0 <= k < i ==> #[trigger] s@[k] == if self.bit(k as nat) {
                        '1'
                    } else {
                        '0'
                    },
            decreases self.n - i,
        {
            if self.get(i) {
                s.append("1");
            } else {
                s.append("0");
            }
            i += 1;
        }
        s
    }
}

/// The sum of two vectors of one width: the sum of their numbers, cut to
/// the width.
pub closed spec fn sum_of(a: BitVec, b: BitVec) -> BitVec {
    BitVec { data: (vstd::wrapping::usize_specs::wrapping_add(a.data, b.data) & (((1usize << a.n) - 1) as usize)), n: a.n }
}

/// What two vectors of one width give bit by bit under exclusive or, cut to
/// the width.
pub closed spec fn xor_of(a: BitVec, b: BitVec) -> BitVec {
    BitVec { data: ((a.data ^ b.data) & (((1usize << a.n) - 1) as usize)), n: a.n }
}

/// What two vectors of one width give bit by bit under and, cut to the
/// width.
pub closed spec fn and_of(a: BitVec, b: BitVec) -> BitVec {
    BitVec { data: ((a.data & b.data) & (((1usize << a.n) - 1) as usize)), n: a.n }
}

/// What two vectors of one width give bit by bit under or, cut to the
/// width.
pub closed spec fn or_of(a: BitVec, b: BitVec) -> BitVec {
    BitVec { data: ((a.data | b.data) & (((1usize << a.n) - 1) as usize)), n: a.n }
}

/// Two vectors can be combined: they are of one width, and the width is
/// less than a machine word.
pub open spec fn can_combine(a: BitVec, b: BitVec) -> bool {
    a.width() == b.width() && a.width() < usize::BITS
}

/// The sum of two vectors is the sum of their numbers modulo `2^width`.
pub proof fn lemma_sum_of(a: BitVec, b: BitVec)
    requires
        can_combine(a, b),
    ensures
        sum_of(a, b).width() == a.width(),
        sum_of(a, b).value() == (a.value() + b.value()) % pow2(a.width()),
{
    let n = a.n;
    let w = vstd::wrapping::usize_specs::wrapping_add(a.data, b.data);
    lemma_masked(w, n);
    lemma_one_shifted(n);
    let m = pow2(n as nat) as int;
    let total = a.data + b.data;
    if total > usize::MAX {
        let rest = (usize::BITS - n) as nat;
        vstd::arithmetic::power2::lemma_pow2_adds(n as nat, rest);
        vstd::arithmetic::power2::lemma_pow2_pos(rest);
        assert(usize::MAX + 1 == pow2(usize::BITS as nat)) by {
            vstd::arithmetic::power2::lemma2_to64();
            vstd::arithmetic::power2::lemma2_to64_rest();
        }
        assert(w == total - pow2(n as nat) * pow2(rest));
        vstd::arithmetic::div_mod::lemma_mod_multiples_vanish(-(pow2(rest) as int), total, m);
        assert(m * (-(pow2(rest) as int)) == -(pow2(n as nat) * pow2(rest))) by (nonlinear_arith)
            requires
                m == pow2(n as nat),
        ;
    }
}

/// The bitwise combinations of two vectors of one width keep the width,
/// and combine numbers that fit the width as the machine does.
pub proof fn lemma_bitwise_of(a: BitVec, b: BitVec)
    requires
        can_combine(a, b),
        a.value() < pow2(a.width()),
        b.value() < pow2(a.width()),
    ensures
        xor_of(a, b).width() == a.width(),
        and_of(a, b).width() == a.width(),
        or_of(a, b).width() == a.width(),
        xor_of(a, b).value() == ((a.value() as usize) ^ (b.value() as usize)),
        and_of(a, b).value() == ((a.value() as usize) & (b.value() as usize)),
        or_of(a, b).value() == ((a.value() as usize) | (b.value() as usize)),
{
    let n = a.n;
    let x = a.data;
    let y = b.data;
    lemma_one_shifted(n);
    let top = 1usize << n;
    assert(x < top && y < top);
    assert(x < top && y < top ==> ((x ^ y) & ((top - 1) as usize)) == (x ^ y)) by (bit_vector)
        requires
            top == 1usize << n,
            n < usize::BITS,
    ;
    assert(x < top && y < top ==> ((x & y) & ((top - 1) as usize)) == (x & y)) by (bit_vector)
        requires
            top == 1usize << n,
            n < usize::BITS,
    ;
    assert(x < top && y < top ==> ((x | y) & ((top - 1) as usize)) == (x | y)) by (bit_vector)
        requires
            top == 1usize << n,
            n < usize::BITS,
    ;
}

impl Add for BitVec {
    type Output = BitVec;

    fn add(self, rhs: BitVec) -> (r: BitVec) {
        proof {
            lemma_one_shifted(self.n);
        }
        BitVec { data: self.data.wrapping_add(rhs.data) & ((1 << self.n) - 1), n: self.n }
    }
}

impl AddSpecImpl for BitVec {
    open spec fn obeys_add_spec() -> bool {
        true
    }

    open spec fn add_req(self, rhs: BitVec) -> bool {
        can_combine(self, rhs)
    }

    open spec fn add_spec(self, rhs: BitVec) -> BitVec {
        sum_of(self, rhs)
    }
}

impl BitXor for BitVec {
    type Output = BitVec;

    fn bitxor(self, rhs: BitVec) -> (r: BitVec) {
        proof {
            lemma_one_shifted(self.n);
        }
        BitVec { data: (self.data ^ rhs.data) & ((1 << self.n) - 1), n: self.n }
    }
}

impl BitXorSpecImpl for BitVec {
    open spec fn obeys_bitxor_spec() -> bool {
        true
    }

    open spec fn bitxor_req(self, rhs: BitVec) -> bool {
        can_combine(self, rhs)
    }

    open spec fn bitxor_spec(self, rhs: BitVec) -> BitVec {
        xor_of(self, rhs)
    }
}

impl BitAnd for BitVec {
    type Output = BitVec;

    fn bitand(self, rhs: BitVec) -> (r: BitVec) {
        proof {
            lemma_one_shifted(self.n);
        }
        BitVec { data: (self.data & rhs.data) & ((1 << self.n) - 1), n: self.n }
    }
}

impl BitAndSpecImpl for BitVec {
    open spec fn obeys_bitand_spec() -> bool {
        true
    }

    open spec fn bitand_req(self, rhs: BitVec) -> bool {
        can_combine(self, rhs)
    }

    open spec fn bitand_spec(self, rhs: BitVec) -> BitVec {
        and_of(self, rhs)
    }
}

impl BitOr for BitVec {
    type Output = BitVec;

    fn bitor(self, rhs: BitVec) -> (r: BitVec) {
        proof {
            lemma_one_shifted(self.n);
        }
        BitVec { data: (self.data | rhs.data) & ((1 << self.n) - 1), n: self.n }
    }
}

impl BitOrSpecImpl for BitVec {
    open spec fn obeys_bitor_spec() -> bool {
        true
    }

    open spec fn bitor_req(self, rhs: BitVec) -> bool {
        can_combine(self, rhs)
    }

    open spec fn bitor_spec(self, rhs: BitVec) -> BitVec {
        or_of(self, rhs)
    }
}

impl From<BitVec> for usize {
    fn from(bv: BitVec) -> (v: usize) {
        bv.to_usize()
    }
}

impl FromSpecImpl<BitVec> for usize {
    open spec fn obeys_from_spec() -> bool {
        true
    }

    open spec fn from_spec(bv: BitVec) -> usize {
        bv.value() as usize
    }
}

/// A walk over the bits of a vector, most significant bit first.
pub struct BitVecIter {
    data: usize,
    n: usize,
    pos: usize,
}

impl BitVecIter {
    /// The vector that is walked over.
    pub closed spec fn source(&self) -> BitVec {
        BitVec { data: self.data, n: self.n }
    }

    /// The position of the bit that comes next.
    pub closed spec fn position(&self) -> nat {
        self.pos as nat
    }

    /// The next bit, or `None` behind the last.
    pub fn next(&mut self) -> (b: Option<bool>)
        requires
            old(self).position() < old(self).source().width() ==> old(self).source().width() - 1
                - old(self).position() < usize::BITS,
        ensures
            final(self).source() == old(self).source(),
            old(self).position() >= old(self).source().width() ==> b is None && final(self).position() == old(self).position(),
            old(self).position() < old(self).source().width() ==> b == Some(
                old(self).source().bit(old(self).position()),
            ) && final(self).position() == old(self).position() + 1,
    {
        if self.pos >= self.n {
            None
        } else {
            let shift = self.n - 1 - self.pos;
            proof {
                lemma_bit_test(self.data, shift);
            }
            let bit = (self.data >> shift) & 1 == 1;
            self.pos += 1;
            Some(bit)
        }
    }
}

/// The enumeration of all bit vectors of one width, by ascending number.
pub struct BitVecRange {
    n: usize,
    curr: usize,
    end: usize,
}

impl BitVecRange {
    /// The width of the vectors.
    pub closed spec fn width(&self) -> nat {
        self.n as nat
    }

    /// The number of the vector that comes next.
    pub closed spec fn next_value(&self) -> nat {
        self.curr as nat
    }

    /// The enumeration ends below `2^width`, and has not passed its end.
    pub closed spec fn wf(&self) -> bool {
        &&& self.n < usize::BITS
        &&& self.end == pow2(self.n as nat)
        &&& self.curr <= self.end
    }

    /// The number of vectors still to come.
    pub open spec fn remaining(&self) -> nat {
        (pow2(self.width()) - self.next_value()) as nat
    }

    /// What `wf` says, for use outside this module.
    pub proof fn lemma_wf(&self)
        requires
            self.wf(),
        ensures
            self.width() < usize::BITS,
            self.next_value() <= pow2(self.width()),
    {
    }

    /// The enumeration of all vectors of width `n`, from zero.
    pub fn new(n: usize) -> (r: Self)
        requires
            n < usize::BITS,
        ensures
            r.wf(),
            r.width() == n,
            r.next_value() == 0,
    {
        proof {
            lemma_one_shifted(n);
        }
        Self { n, curr: 0, end: 1 << n }
    }

    /// The next vector, or `None` behind the last.
    pub fn next(&mut self) -> (b: Option<BitVec>)
        requires
            old(self).wf(),
        ensures
            final(self).wf(),
            final(self).width() == old(self).width(),
            old(self).remaining() == 0 ==> b is None && final(self).next_value() == old(self).next_value(),
            old(self).remaining() > 0 ==> b == Some(
                BitVec::of(old(self).next_value(), old(self).width()),
            ) && final(self).next_value() == old(self).next_value() + 1,
    {
        if self.curr < self.end {
            let bv = BitVec::from_usize(self.curr, self.n);
            self.curr += 1;
            Some(bv)
        } else {
            None
        }
    }

    /// All the vectors still to come, in order: as many as remain, each one
    /// more than the one before it.
    pub fn collect(self) -> (all: Vec<BitVec>)
        requires
            self.wf(),
        ensures
            all@.len() == self.remaining(),
            forall|i: int|
                0 <= i < all@.len() ==> #[trigger] all@[i] == BitVec::of(
                    self.next_value() + i as nat,
                    self.width(),
                ),
    {
        let mut range = self;
        let mut all: Vec<BitVec> = Vec::new();
        loop
            invariant
                range.wf(),
                range.width() == self.width(),
                self.next_value() <= range.next_value(),
                all@.len() == range.next_value() - self.next_value(),
                forall|i: int|
                    0 <= i < all@.len() ==> #[trigger] all@[i] == BitVec::of(
                        self.next_value() + i as nat,
                        self.width(),
                    ),
            ensures
                range.remaining() == 0,
                range.width() == self.width(),
                self.next_value() <= range.next_value(),
                all@.len() == range.next_value() - self.next_value(),
                forall|i: int|
                    0 <= i < all@.len() ==> #[trigger] all@[i] == BitVec::of(
                        self.next_value() + i as nat,
                        self.width(),
                    ),
            decreases range.remaining(),
        {
            match range.next() {
                Some(bv) => {
                    all.push(bv);
                },
                None => {
                    break ;
                },
            }
        }
        all
    }
}

/// The enumeration of all vectors of a width, as an operation on a type.
pub trait BitVecAll {
    fn all(n: usize) -> (r: BitVecRange)
        requires
            n < usize::BITS,
        ensures
            r.wf(),
            r.width() == n,
            r.next_value() == 0,
    ;
}

impl BitVecAll for BitVec {
    fn all(n: usize) -> (r: BitVecRange) {
        BitVecRange::new(n)
    }
}

/// Enumerating all the vectors of width `n` gives `2^n` vectors, the
/// numbers of which are `0`, `1`, `2` and so on up to `2^n - 1`, and each of
/// which is the vector that its own number gives back.
pub proof fn lemma_enumeration_is_complete(n: nat, i: nat)
    requires
        n < usize::BITS,
        i < pow2(n),
    ensures
        BitVec::of(i, n).value() == i,
        BitVec::of(i, n).width() == n,
        BitVec::of(i, n).value() % pow2(n) == i,
{
    vstd::bits::lemma_usize_pow2_no_overflow(n);
    vstd::arithmetic::div_mod::lemma_small_mod(i, pow2(n));
}

} // verus!
