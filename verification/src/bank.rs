use vstd::prelude::*;
use vstd::string::*;
use crate::bigint::{BigInt, Integer};
use crate::diagn::{place_of, Place, Span};

verus! {

/// A region of the image: its name, the address of its first word, its size in words (where
/// it is bounded), the bits of a word, the place of its first word in the image, counted in
/// words (where it is part of the image), and where it was declared.
#[derive(Debug)]
pub struct Bank {
    pub name: String,
    pub addr_start: BigInt,
    pub addr_size: Option<usize>,
    pub wordsize: usize,
    pub output_offset: Option<usize>,
    pub decl_span: Option<Span>,
}

/// What a `Bank` stands for.
pub struct Layout {
    pub name: Seq<char>,
    pub addr_start: Integer,
    pub addr_size: Option<usize>,
    pub wordsize: usize,
    pub output_offset: Option<usize>,
    pub decl_span: Option<Place>,
}

impl View for Bank {
    type V = Layout;

    open spec fn view(&self) -> Layout {
        Layout {
            name: self.name@,
            addr_start: self.addr_start@,
            addr_size: self.addr_size,
            wordsize: self.wordsize,
            output_offset: self.output_offset,
            decl_span: place_of(self.decl_span),
        }
    }
}

/// What a list of banks stands for.
pub open spec fn layouts(v: Seq<Bank>) -> Seq<Layout> {
    v.map_values(|b: Bank| b@)
}

impl Layout {
    /// The layout of the default bank: unnamed, unbounded, with 8-bit words, starting at
    /// address 0 and at the start of the image.
    pub open spec fn default_bank() -> Layout {
        Layout {
            name: Seq::<char>::empty(),
            addr_start: Integer { value: 0, size: None },
            addr_size: None,
            wordsize: 8,
            output_offset: Some(0usize),
            decl_span: None,
        }
    }

    /// The first bit of the bank's output region in the image. Only a bank with an output
    /// offset has one.
    pub open spec fn output_start(self) -> int {
        self.output_offset.unwrap() * self.wordsize
    }

    /// The length of the bank's output region in bits, where the bank is bounded.
    pub open spec fn output_bits(self) -> Option<int> {
        match self.addr_size {
            Some(size) => Some(size * self.wordsize),
            None => None,
        }
    }

    /// Whether the output regions of two banks that both have an output offset overlap. Two
    /// bounded regions overlap where each ends after the other starts; a bounded and an
    /// unbounded one where the bounded one ends after the other starts; two unbounded ones
    /// always.
    pub open spec fn overlaps(self, other: Layout) -> bool {
        match (self.output_bits(), other.output_bits()) {
            (None, None) => true,
            (Some(mine), None) => self.output_start() + mine > other.output_start(),
            (None, Some(theirs)) => other.output_start() + theirs > self.output_start(),
            (Some(mine), Some(theirs)) => self.output_start() + mine > other.output_start()
                && other.output_start() + theirs > self.output_start(),
        }
    }

    /// Whether a new bank with this layout clashes with the bank `other` that is there already.
    pub open spec fn clashes_with(self, other: Layout) -> bool {
        self.output_offset.is_some() && other.output_offset.is_some() && self.overlaps(other)
    }
}

/// The product of two machine words, which always fits in 128 bits.
pub fn wide_product(a: usize, b: usize) -> (r: u128)
    ensures
        r == a * b,
{
    assert(a * b <= 0xffff_ffff_ffff_ffff * 0xffff_ffff_ffff_ffff) by (nonlinear_arith)
        requires
            0 <= a <= 0xffff_ffff_ffff_ffff,
            0 <= b <= 0xffff_ffff_ffff_ffff,
    ;
    (a as u128) * (b as u128)
}

/// Whether a region of `length` bits from `start` on ends after `other_start`.
pub fn ends_after(start: u128, length: u128, other_start: u128) -> (r: bool)
    ensures
        r == (start + length > other_start),
{
    start > other_start || length > other_start - start
}

impl Bank {
    /// The bank that holds whatever is emitted before a bank is declared.
    pub fn new_default() -> (r: Bank)
        ensures
            r@ == Layout::default_bank(),
    {
        Bank {
            name: String::new(),
            addr_start: BigInt::from_usize(0),
            addr_size: None,
            wordsize: 8,
            output_offset: Some(0),
            decl_span: None,
        }
    }

    /// Whether this bank, as a new one, clashes with `other`.
    pub fn clashes_with(&self, other: &Bank) -> (r: bool)
        ensures
            r == self@.clashes_with(other@),
    {
        match (self.output_offset, other.output_offset) {
            (Some(mine), Some(theirs)) => {
                let start = wide_product(mine, self.wordsize);
                let other_start = wide_product(theirs, other.wordsize);
                match (self.addr_size, other.addr_size) {
                    (None, None) => true,
                    (Some(size), None) => ends_after(
                        start,
                        wide_product(size, self.wordsize),
                        other_start,
                    ),
                    (None, Some(other_size)) => ends_after(
                        other_start,
                        wide_product(other_size, other.wordsize),
                        start,
                    ),
                    (Some(size), Some(other_size)) => ends_after(
                        start,
                        wide_product(size, self.wordsize),
                        other_start,
                    ) && ends_after(other_start, wide_product(other_size, other.wordsize), start),
                }
            },
            _ => false,
        }
    }
}

} // verus!
