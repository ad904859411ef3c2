use vstd::prelude::*;
use crate::bigint::{int_bit, min_bits, BigInt, Integer};

verus! {

/// `base` with `bits` laid over it from position `offset` on. Where `bits` reaches beyond the
/// end of `base`, the gap between the two is filled with zero bits; laying nothing over `base`
/// leaves it as it is.
pub open spec fn overlay(base: Seq<bool>, offset: int, bits: Seq<bool>) -> Seq<bool> {
    if bits.len() == 0 {
        base
    } else {
        Seq::new(
            if base.len() >= offset + bits.len() {
                base.len()
            } else {
                (offset + bits.len()) as nat
            },
            |j: int|
                if offset <= j < offset + bits.len() {
                    bits[j - offset]
                } else if j < base.len() {
                    base[j]
                } else {
                    false
                },
        )
    }
}

/// The width in which a number is written: its declared width, or else the least that holds it.
pub open spec fn written_width(v: Integer) -> nat {
    match v.size {
        Some(size) => size as nat,
        None => min_bits(v.value),
    }
}

/// The bits of a number as they are written, most significant bit first.
pub open spec fn written_bits(v: Integer) -> Seq<bool> {
    Seq::new(written_width(v), |i: int| int_bit(v.value, (written_width(v) - 1 - i) as nat))
}

/// A growable string of bits, addressed from zero.
#[derive(Debug)]
pub struct BitVec {
    pub bits: Vec<bool>,
}

impl View for BitVec {
    type V = Seq<bool>;

    open spec fn view(&self) -> Seq<bool> {
        self.bits@
    }
}

impl BitVec {
    /// The empty bit string.
    pub fn new() -> (r: BitVec)
        ensures
            r@ == Seq::<bool>::empty(),
    {
        BitVec { bits: Vec::new() }
    }

    /// Number of bits held.
    pub fn len(&self) -> (r: usize)
        ensures
            r == self@.len(),
    {
        self.bits.len()
    }

    /// The bit at `index`; beyond the end every bit reads as zero.
    pub fn read(&self, index: usize) -> (r: bool)
        ensures
            r == (index < self@.len() && self@[index as int]),
    {
        if index < self.bits.len() {
            self.bits[index]
        } else {
            false
        }
    }

    /// Sets the bit at `index`, growing the string with zero bits where it is too short.
    pub fn write(&mut self, index: usize, bit: bool)
        requires
            index < usize::MAX,
        ensures
            final(self)@ == overlay(old(self)@, index as int, seq![bit]),
    {
        while self.bits.len() <= index
            invariant
                old(self)@.len() <= self.bits@.len(),
                self.bits@.len() <= index + 1 || self.bits@.len() == old(self)@.len(),
                forall|j: int| 0 <= j < old(self)@.len() ==> self.bits@[j] == old(self)@[j],
                forall|j: int| old(self)@.len() <= j < self.bits@.len() ==> !self.bits@[j],
            decreases index + 1 - self.bits.len(),
        {
            self.bits.push(false);
        }
        self.bits.set(index, bit);
        assert(self.bits@ =~= overlay(old(self)@, index as int, seq![bit]));
    }

    /// Writes a number at `index`, most significant bit first, in its declared width or, where
    /// it has none, in the least width that holds it.
    pub fn write_bigint(&mut self, index: usize, bigint: &BigInt)
        requires
            index + written_width(bigint@) < usize::MAX,
        ensures
            final(self)@ == overlay(old(self)@, index as int, written_bits(bigint@)),
    {
        let width = match bigint.size {
            Some(size) => size,
            None => bigint.min_size(),
        };
        let ghost all = written_bits(bigint@);
        let mut i: usize = 0;
        while i < width
            invariant
                i <= width,
                width == written_width(bigint@),
                index + width < usize::MAX,
                all == written_bits(bigint@),
                self@ == overlay(old(self)@, index as int, all.take(i as int)),
            decreases width - i,
        {
            let bit = bigint.get_bit(width - i - 1);
            let ghost before = self@;
            self.write(index + i, bit);
            proof {
                assert(all[i as int] == bit);
                assert(self@ =~= overlay(old(self)@, index as int, all.take(i + 1)));
            }
            i = i + 1;
        }
        assert(all.take(width as int) == all);
    }

    /// Lays another bit string over this one from `index` on.
    pub fn write_bitvec(&mut self, index: usize, other: &BitVec)
        requires
            index + other@.len() < usize::MAX,
        ensures
            final(self)@ == overlay(old(self)@, index as int, other@),
    {
        let mut i: usize = 0;
        while i < other.bits.len()
            invariant
                i <= other@.len(),
                index + other@.len() < usize::MAX,
                self@ == overlay(old(self)@, index as int, other@.take(i as int)),
            decreases other@.len() - i,
        {
            self.write(index + i, other.bits[i]);
            proof {
                assert(self@ =~= overlay(old(self)@, index as int, other@.take(i + 1)));
            }
            i = i + 1;
        }
        assert(other@.take(other@.len() as int) == other@);
    }

    /// Appends bits at the end.
    pub fn append_bits(&mut self, bits: &Vec<bool>)
        ensures
            final(self)@ == old(self)@ + bits@,
    {
        let mut i: usize = 0;
        assert(self@ =~= old(self)@ + bits@.take(0));
        while i < bits.len()
            invariant
                i <= bits.len(),
                self@ == old(self)@ + bits@.take(i as int),
            decreases bits.len() - i,
        {
            self.bits.push(bits[i]);
            assert(self@ =~= old(self)@ + bits@.take(i + 1));
            i = i + 1;
        }
        assert(bits@.take(bits.len() as int) == bits@);
    }

    /// Whether two bit strings have the same length and the same bits.
    pub fn same_as(&self, other: &BitVec) -> (r: bool)
        ensures
            r == (self@ == other@),
    {
        if self.bits.len() != other.bits.len() {
            return false;
        }
        let mut i: usize = 0;
        while i < self.bits.len()
            invariant
                i <= self@.len(),
                self@.len() == other@.len(),
                forall|j: int| 0 <= j < i ==> self@[j] == other@[j],
            decreases self@.len() - i,
        {
            if self.bits[i] != other.bits[i] {
                return false;
            }
            i = i + 1;
        }
        assert(self@ =~= other@);
        true
    }
}

} // verus!
