use vstd::prelude::*;

verus! {

/// Two to the power `n`.
pub open spec fn two_pow(n: nat) -> int
    decreases n,
{
    if n == 0 {
        1
    } else {
        2 * two_pow((n - 1) as nat)
    }
}

/// Bit `i` of a little-endian two's complement bit string: beyond its end, the sign bit repeats.
pub open spec fn bit_at(s: Seq<bool>, i: int) -> bool {
    if 0 <= i < s.len() {
        s[i]
    } else if s.len() > 0 {
        s.last()
    } else {
        false
    }
}

/// The sign bit of a bit string (the empty string stands for zero).
pub open spec fn sign_of(s: Seq<bool>) -> bool {
    s.len() > 0 && s.last()
}

/// What a bit contributes at position `i`.
pub open spec fn weight(b: bool, i: nat) -> int {
    if b {
        two_pow(i)
    } else {
        0
    }
}

/// The number that the lowest `n` bits of `s` spell, read as unsigned.
pub open spec fn low_value(s: Seq<bool>, n: nat) -> int
    decreases n,
{
    if n == 0 {
        0
    } else {
        low_value(s, (n - 1) as nat) + weight(bit_at(s, n - 1), (n - 1) as nat)
    }
}

/// The integer that `s` spells in two's complement, least significant bit first.
pub open spec fn signed_value(s: Seq<bool>) -> int {
    low_value(s, s.len()) - weight(sign_of(s), s.len())
}

/// Bit `i` of the infinite two's complement expansion of `v`.
pub open spec fn int_bit(v: int, i: nat) -> bool
    decreases i,
{
    if i == 0 {
        v % 2 == 1
    } else {
        int_bit(v / 2, (i - 1) as nat)
    }
}

/// Number of binary digits of `n` (zero has none).
pub open spec fn bit_length(n: nat) -> nat
    decreases n,
{
    if n == 0 {
        0
    } else {
        1 + bit_length(n / 2)
    }
}

/// The least number of bits that holds `v`: for a positive number its binary digits, for a
/// negative one the width of its shortest two's complement form, and one bit for zero.
pub open spec fn min_bits(v: int) -> nat {
    if v == 0 {
        1
    } else if v > 0 {
        bit_length(v as nat)
    } else {
        bit_length((-v - 1) as nat) + 1
    }
}

pub proof fn lemma_two_pow_positive(n: nat)
    ensures
        two_pow(n) >= 1,
    decreases n,
{
    if n > 0 {
        lemma_two_pow_positive((n - 1) as nat);
    }
}

pub proof fn lemma_low_value_bounds(s: Seq<bool>, n: nat)
    ensures
        0 <= low_value(s, n) < two_pow(n),
    decreases n,
{
    if n > 0 {
        lemma_low_value_bounds(s, (n - 1) as nat);
        lemma_two_pow_positive((n - 1) as nat);
    }
}

/// Bit strings that agree on their lowest `n` bits spell the same low value.
pub proof fn lemma_low_value_agree(s: Seq<bool>, t: Seq<bool>, n: nat)
    requires
        forall|i: int| 0 <= i < n ==> bit_at(s, i) == bit_at(t, i),
    ensures
        low_value(s, n) == low_value(t, n),
    decreases n,
{
    if n > 0 {
        lemma_low_value_agree(s, t, (n - 1) as nat);
    }
}

/// Reading more bits than the string has (the sign repeated) spells the same number.
pub proof fn lemma_sign_extension(s: Seq<bool>, n: nat)
    requires
        n >= s.len(),
    ensures
        signed_value(s) == low_value(s, n) - weight(sign_of(s), n),
    decreases n,
{
    if n > s.len() {
        lemma_sign_extension(s, (n - 1) as nat);
        assert(bit_at(s, n - 1) == sign_of(s));
    }
}

/// A string of at most `n` bits, `n` at least one, spells a number in the signed range of `n` bits.
pub proof fn lemma_signed_bounds(s: Seq<bool>, n: nat)
    requires
        n >= s.len(),
        n >= 1,
    ensures
        -two_pow((n - 1) as nat) <= signed_value(s) < two_pow((n - 1) as nat),
{
    lemma_sign_extension(s, n);
    lemma_low_value_bounds(s, (n - 1) as nat);
    assert(bit_at(s, n - 1) == sign_of(s));
}

/// Dropping the lowest bit halves the low value.
pub proof fn lemma_low_value_shift(s: Seq<bool>, n: nat)
    requires
        s.len() >= 2,
        n >= 1,
    ensures
        low_value(s, n) == weight(s[0], 0) + 2 * low_value(s.skip(1), (n - 1) as nat),
    decreases n,
{
    let t = s.skip(1);
    if n > 1 {
        lemma_low_value_shift(s, (n - 1) as nat);
        assert(bit_at(s, n - 1) == bit_at(t, n - 2)) by {
            if n - 1 < s.len() {
                assert(t[n - 2] == s[n - 1]);
            } else {
                assert(t.last() == s.last());
            }
        }
    } else {
        assert(low_value(s, 0) == 0);
        assert(low_value(t, 0) == 0);
    }
}

/// Dropping the lowest bit of a string of two or more bits halves the number, rounding down.
pub proof fn lemma_signed_shift(s: Seq<bool>)
    requires
        s.len() >= 2,
    ensures
        signed_value(s) == weight(s[0], 0) + 2 * signed_value(s.skip(1)),
        signed_value(s.skip(1)) == signed_value(s) / 2,
        (signed_value(s) % 2 == 1) == s[0],
{
    let t = s.skip(1);
    lemma_low_value_shift(s, s.len());
    assert(t.last() == s.last());
    assert(sign_of(t) == sign_of(s));
    assert(t.len() == s.len() - 1);
}

/// Each bit of a bit string is the bit of the number it spells.
pub proof fn lemma_bit_of_value(s: Seq<bool>, i: nat)
    ensures
        bit_at(s, i as int) == int_bit(signed_value(s), i),
    decreases i, s.len(),
{
    if s.len() >= 2 {
        lemma_signed_shift(s);
        let t = s.skip(1);
        if i > 0 {
            lemma_bit_of_value(t, (i - 1) as nat);
            assert(bit_at(t, i - 1) == bit_at(s, i as int)) by {
                if i < s.len() {
                    assert(t[i - 1] == s[i as int]);
                } else {
                    assert(t.last() == s.last());
                }
            }
        }
    } else if s.len() == 1 {
        assert(low_value(s, 1) == low_value(s, 0) + weight(bit_at(s, 0), 0));
        assert(low_value(s, 0) == 0);
        assert(two_pow(1) == 2 * two_pow(0));
        let v = signed_value(s);
        assert(v == if s[0] { -1int } else { 0int });
        if i > 0 {
            assert(v / 2 == v);
            lemma_bit_of_value(s, (i - 1) as nat);
        }
    } else {
        let v = signed_value(s);
        assert(low_value(s, 0) == 0);
        assert(v == 0);
        if i > 0 {
            lemma_bit_of_value(s, (i - 1) as nat);
        }
    }
}

/// With a positive `k`, a number in `[2^(k-1), 2^k)` has `k` binary digits.
pub proof fn lemma_bit_length(n: nat, k: nat)
    requires
        k >= 1,
        two_pow((k - 1) as nat) <= n < two_pow(k),
    ensures
        bit_length(n) == k,
    decreases k,
{
    if k > 1 {
        lemma_two_pow_positive((k - 2) as nat);
        lemma_bit_length(n / 2, (k - 1) as nat);
    } else {
        assert(two_pow(0) == 1);
        assert(n == 1);
        assert(bit_length(1) == 1 + bit_length(0));
    }
}

/// A sign bit that repeats the bit below it can be dropped.
pub proof fn lemma_drop_redundant_sign(s: Seq<bool>)
    requires
        s.len() >= 2,
        s[s.len() - 1] == s[s.len() - 2],
    ensures
        signed_value(s.drop_last()) == signed_value(s),
{
    let t = s.drop_last();
    lemma_sign_extension(t, s.len());
    assert(t.last() == s[s.len() - 2]);
    assert forall|i: int| 0 <= i < s.len() implies bit_at(t, i) == bit_at(s, i) by {
        if i < t.len() {
            assert(t[i] == s[i]);
        }
    }
    lemma_low_value_agree(t, s, s.len());
}

/// The width of a bit string whose sign bit differs from the bit below it (or that has one bit
/// only) gives the least number of bits of the number it spells.
pub proof fn lemma_min_bits_of_shortest(s: Seq<bool>)
    requires
        s.len() >= 1,
        s.len() >= 2 ==> s[s.len() - 1] != s[s.len() - 2],
    ensures
        min_bits(signed_value(s)) == if s.last() || s.len() == 1 {
            s.len()
        } else {
            (s.len() - 1) as nat
        },
{
    let n = s.len();
    let v = signed_value(s);
    assert(low_value(s, n) == low_value(s, (n - 1) as nat) + weight(bit_at(s, n - 1), (n - 1) as nat));
    assert(two_pow(n) == 2 * two_pow((n - 1) as nat));
    if n == 1 {
        assert(low_value(s, 0) == 0);
        assert(two_pow(0) == 1);
        if s.last() {
            assert(v == -1);
            assert(bit_length(0) == 0);
        }
    } else {
        let m = (n - 2) as nat;
        assert(low_value(s, (n - 1) as nat) == low_value(s, m) + weight(bit_at(s, n - 2), m));
        assert(two_pow((n - 1) as nat) == 2 * two_pow(m));
        lemma_low_value_bounds(s, m);
        lemma_two_pow_positive(m);
        if s.last() {
            assert(v == low_value(s, m) - two_pow((n - 1) as nat));
            lemma_bit_length((-v - 1) as nat, (n - 1) as nat);
        } else {
            assert(v == low_value(s, m) + two_pow(m));
            lemma_bit_length(v as nat, (n - 1) as nat);
        }
    }
}

/// The bits of a sum: one step of a ripple-carry adder keeps the running identity.
pub proof fn lemma_adder_step(a: bool, b: bool, c: bool, i: nat)
    ensures
        weight(a, i) + weight(b, i) + weight(c, i) == weight((a != b) != c, i) + weight(
            (a && b) || (c && (a != b)),
            i + 1,
        ),
{
    assert(two_pow(i + 1) == 2 * two_pow(i));
}

/// Each bit of `s` inverted.
pub open spec fn inverted(s: Seq<bool>) -> Seq<bool> {
    Seq::new(s.len(), |i: int| !s[i])
}

/// The low bits of an inverted bit string spell what is missing to all ones.
pub proof fn lemma_inverted_low_value(s: Seq<bool>, n: nat)
    requires
        s.len() >= 1,
    ensures
        low_value(inverted(s), n) == two_pow(n) - 1 - low_value(s, n),
    decreases n,
{
    if n > 0 {
        lemma_inverted_low_value(s, (n - 1) as nat);
        assert(bit_at(inverted(s), n - 1) == !bit_at(s, n - 1));
    }
}

/// Inverting every bit of a number `v` gives `-v - 1`.
pub proof fn lemma_inverted_value(s: Seq<bool>)
    requires
        s.len() >= 1,
    ensures
        signed_value(inverted(s)) == -signed_value(s) - 1,
{
    lemma_inverted_low_value(s, s.len());
}

/// An arbitrary-precision signed integer with an optional declared width in bits.
///
/// The number is held in two's complement, least significant bit first; the last bit is the
/// sign, and an empty bit string stands for zero.
#[derive(Debug)]
pub struct BigInt {
    pub bits: Vec<bool>,
    pub size: Option<usize>,
}

/// What a `BigInt` stands for: a mathematical integer and the declared width, if any.
pub struct Integer {
    pub value: int,
    pub size: Option<usize>,
}

impl View for BigInt {
    type V = Integer;

    open spec fn view(&self) -> Integer {
        Integer { value: signed_value(self.bits@), size: self.size }
    }
}

impl Clone for BigInt {
    fn clone(&self) -> (r: BigInt)
        ensures
            r@ == self@,
            r.bits@ == self.bits@,
    {
        BigInt { bits: copy_bits(&self.bits), size: self.size }
    }
}

/// A copy of a bit string.
pub fn copy_bits(bits: &Vec<bool>) -> (r: Vec<bool>)
    ensures
        r@ == bits@,
{
    let mut r: Vec<bool> = Vec::new();
    let mut i: usize = 0;
    while i < bits.len()
        invariant
            i <= bits.len(),
            r@ == bits@.take(i as int),
        decreases bits.len() - i,
    {
        r.push(bits[i]);
        assert(bits@.take(i + 1) == bits@.take(i as int).push(bits@[i as int]));
        i = i + 1;
    }
    assert(bits@.take(bits.len() as int) == bits@);
    r
}

/// Executable form of `bit_at`.
pub fn bit_of(bits: &Vec<bool>, i: usize) -> (r: bool)
    ensures
        r == bit_at(bits@, i as int),
{
    if i < bits.len() {
        bits[i]
    } else if bits.len() > 0 {
        bits[bits.len() - 1]
    } else {
        false
    }
}

impl BigInt {
    /// The integer this number stands for.
    pub open spec fn value(&self) -> int {
        signed_value(self.bits@)
    }

    /// The number `n`, with no declared width.
    pub fn from_usize(n: usize) -> (r: BigInt)
        ensures
            r@.value == n,
            r@.size.is_none(),
    {
        let mut bits: Vec<bool> = Vec::new();
        let mut m: usize = n;
        while m > 0
            invariant
                low_value(bits@, bits@.len()) + m * two_pow(bits@.len()) == n,
            decreases m,
        {
            let ghost before = bits@;
            let b = m % 2 == 1;
            bits.push(b);
            proof {
                let k = before.len();
                assert(bit_at(bits@, k as int) == b);
                lemma_low_value_agree(before, bits@, k);
                assert(two_pow(k + 1) == 2 * two_pow(k));
                assert(m == 2 * (m / 2) + (if b { 1int } else { 0int }));
                assert((m / 2) * two_pow(k + 1) == 2 * ((m / 2) * two_pow(k))) by (nonlinear_arith)
                    requires
                        two_pow(k + 1) == 2 * two_pow(k),
                ;
                assert(m * two_pow(k) == (2 * (m / 2) + (if b { 1int } else { 0int })) * two_pow(k));
                assert((2 * (m / 2) + (if b { 1int } else { 0int })) * two_pow(k) == 2 * ((m / 2)
                    * two_pow(k)) + weight(b, k)) by (nonlinear_arith)
                    requires
                        weight(b, k) == (if b { 1int } else { 0int }) * two_pow(k),
                ;
            }
            m = m / 2;
        }
        let ghost before = bits@;
        bits.push(false);
        proof {
            lemma_low_value_agree(before, bits@, before.len());
            assert(bit_at(bits@, before.len() as int) == false);
        }
        BigInt { bits, size: None }
    }

    /// The same number with the declared width `size`.
    pub fn with_size(self, size: Option<usize>) -> (r: BigInt)
        ensures
            r@.value == self@.value,
            r@.size == size,
    {
        BigInt { bits: self.bits, size }
    }

    /// Bit `i` of the number's two's complement expansion.
    pub fn get_bit(&self, i: usize) -> (r: bool)
        ensures
            r == int_bit(self@.value, i as nat),
    {
        proof {
            lemma_bit_of_value(self.bits@, i as nat);
        }
        bit_of(&self.bits, i)
    }

    /// Whether the number is below zero.
    pub fn is_negative(&self) -> (r: bool)
        ensures
            r == (self@.value < 0),
    {
        proof {
            lemma_low_value_bounds(self.bits@, self.bits@.len());
        }
        self.bits.len() > 0 && self.bits[self.bits.len() - 1]
    }

    /// The least number of bits that holds the number.
    pub fn min_size(&self) -> (r: usize)
        ensures
            r == min_bits(self@.value),
            r >= 1,
    {
        if self.bits.len() == 0 {
            assert(low_value(self.bits@, 0) == 0);
            return 1;
        }
        let mut k: usize = self.bits.len();
        assert(self.bits@.take(k as int) == self.bits@);
        while k >= 2 && self.bits[k - 1] == self.bits[k - 2]
            invariant
                1 <= k <= self.bits.len(),
                signed_value(self.bits@.take(k as int)) == signed_value(self.bits@),
            decreases k,
        {
            proof {
                let s = self.bits@.take(k as int);
                lemma_drop_redundant_sign(s);
                assert(s.drop_last() == self.bits@.take(k - 1));
            }
            k = k - 1;
        }
        proof {
            lemma_min_bits_of_shortest(self.bits@.take(k as int));
        }
        if self.bits[k - 1] || k == 1 {
            k
        } else {
            k - 1
        }
    }

    /// The sum of two numbers; the result has no declared width.
    pub fn add(&self, other: &BigInt) -> (r: BigInt)
        ensures
            r@.value == self@.value + other@.value,
            r@.size.is_none(),
    {
        let ghost a = self.bits@;
        let ghost b = other.bits@;
        let mut out: Vec<bool> = Vec::new();
        let mut carry = false;
        let mut i: usize = 0;
        while i < self.bits.len() || i < other.bits.len()
            invariant
                a == self.bits@,
                b == other.bits@,
                out@.len() == i,
                i <= a.len() || i <= b.len(),
                low_value(out@, i as nat) + weight(carry, i as nat) == low_value(a, i as nat)
                    + low_value(b, i as nat),
            decreases (if a.len() > b.len() { a.len() } else { b.len() }) - i,
        {
            let x = bit_of(&self.bits, i);
            let y = bit_of(&other.bits, i);
            let ghost before = out@;
            out.push((x != y) != carry);
            proof {
                lemma_low_value_agree(before, out@, i as nat);
                lemma_adder_step(x, y, carry, i as nat);
                assert(bit_at(out@, i as int) == ((x != y) != carry));
            }
            carry = (x && y) || (carry && (x != y));
            i = i + 1;
        }
        let x = bit_of(&self.bits, i);
        let y = bit_of(&other.bits, i);
        let ghost before = out@;
        let ghost carry_in = carry;
        out.push((x != y) != carry);
        proof {
            let m = i as nat;
            let top = (x != y) != carry_in;
            let carry_out = (x && y) || (carry_in && (x != y));
            lemma_low_value_agree(before, out@, m);
            lemma_adder_step(x, y, carry_in, m);
            assert(bit_at(out@, m as int) == top);
            assert(x == sign_of(a));
            assert(y == sign_of(b));
            assert(low_value(out@, m + 1) + weight(carry_out, m + 1) == low_value(a, m + 1)
                + low_value(b, m + 1));
            lemma_sign_extension(a, m + 1);
            lemma_sign_extension(b, m + 1);
            assert(sign_of(out@) == top);
            lemma_signed_bounds(out@, m + 1);
            assert(two_pow(m + 1) == 2 * two_pow(m));
            lemma_two_pow_positive(m);
            if m >= 1 {
                lemma_signed_bounds(a, m);
                lemma_signed_bounds(b, m);
                assert(two_pow(m) == 2 * two_pow((m - 1) as nat));
            } else {
                assert(a.len() == 0 && b.len() == 0);
                assert(low_value(a, 0) == 0);
                assert(low_value(b, 0) == 0);
            }
        }
        BigInt { bits: out, size: None }
    }

    /// The number with its sign changed; the result has no declared width.
    pub fn negated(&self) -> (r: BigInt)
        ensures
            r@.value == -self@.value,
            r@.size.is_none(),
    {
        if self.bits.len() == 0 {
            assert(low_value(self.bits@, 0) == 0);
            return BigInt::from_usize(0);
        }
        let mut flipped: Vec<bool> = Vec::new();
        let mut i: usize = 0;
        while i < self.bits.len()
            invariant
                i <= self.bits.len(),
                flipped@.len() == i,
                forall|j: int| 0 <= j < i ==> flipped@[j] == !self.bits@[j],
            decreases self.bits.len() - i,
        {
            flipped.push(!self.bits[i]);
            i = i + 1;
        }
        proof {
            assert(flipped@ =~= inverted(self.bits@));
            lemma_inverted_value(self.bits@);
        }
        let complement = BigInt { bits: flipped, size: None };
        complement.add(&BigInt::from_usize(1))
    }

    /// Whether two numbers are the same integer with the same declared width.
    pub fn same_as(&self, other: &BigInt) -> (r: bool)
        ensures
            r == (self@ == other@),
    {
        let ghost a = self.bits@;
        let ghost b = other.bits@;
        let mut i: usize = 0;
        while i < self.bits.len() || i < other.bits.len()
            invariant
                a == self.bits@,
                b == other.bits@,
                forall|j: int| 0 <= j < i ==> bit_at(a, j) == bit_at(b, j),
            decreases (if a.len() > b.len() { a.len() } else { b.len() }) - i,
        {
            if bit_of(&self.bits, i) != bit_of(&other.bits, i) {
                proof {
                    lemma_bit_of_value(a, i as nat);
                    lemma_bit_of_value(b, i as nat);
                }
                return false;
            }
            i = i + 1;
        }
        proof {
            let m = i as nat;
            lemma_sign_extension(a, m);
            lemma_sign_extension(b, m);
            lemma_low_value_agree(a, b, m);
            if m >= 1 {
                assert(bit_at(a, m - 1) == sign_of(a));
                assert(bit_at(b, m - 1) == sign_of(b));
            }
        }
        match (self.size, other.size) {
            (None, None) => true,
            (Some(x), Some(y)) => x == y,
            _ => false,
        }
    }
}


} // verus!
