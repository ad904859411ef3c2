use asmcore::bigint::BigInt;
use asmcore::bitvec::BitVec;

fn bits_of(text: &str) -> Vec<bool> {
    text.chars().map(|c| c == '1').collect()
}

#[test]
fn byte_is_written_most_significant_bit_first() {
    let mut bits = BitVec::new();
    let value = BigInt::from_usize(0x41).with_size(Some(8));
    bits.write_bigint(0, &value);
    assert_eq!(bits.bits, bits_of("01000001"));
    assert_eq!(bits.len(), 8);
}

#[test]
fn number_without_width_is_written_in_its_least_width() {
    let mut bits = BitVec::new();
    bits.write_bigint(0, &BigInt::from_usize(5));
    assert_eq!(bits.bits, bits_of("101"));
}

#[test]
fn min_size_counts_binary_digits() {
    assert_eq!(BigInt::from_usize(0).min_size(), 1);
    assert_eq!(BigInt::from_usize(1).min_size(), 1);
    assert_eq!(BigInt::from_usize(2).min_size(), 2);
    assert_eq!(BigInt::from_usize(255).min_size(), 8);
    assert_eq!(BigInt::from_usize(256).min_size(), 9);
    assert_eq!(BigInt::from_usize(0x1234).min_size(), 13);
    assert_eq!(BigInt::from_usize(usize::MAX).min_size(), usize::BITS as usize);
}

#[test]
fn min_size_ignores_declared_width() {
    assert_eq!(BigInt::from_usize(3).with_size(Some(16)).min_size(), 2);
}

#[test]
fn sum_of_large_numbers_needs_one_more_bit() {
    let a = BigInt::from_usize(usize::MAX);
    let b = BigInt::from_usize(usize::MAX);
    let sum = a.add(&b);
    assert_eq!(sum.min_size(), usize::BITS as usize + 1);
    assert!(!sum.is_negative());
    assert!(!sum.get_bit(0));
    assert!(sum.get_bit(1));
    assert!(sum.get_bit(usize::BITS as usize));
    assert!(!sum.get_bit(usize::BITS as usize + 1));
    assert!(sum.size.is_none());
}

#[test]
fn sum_of_small_numbers() {
    let sum = BigInt::from_usize(19).add(&BigInt::from_usize(23));
    assert!(sum.same_as(&BigInt::from_usize(42)));
    assert!(!sum.same_as(&BigInt::from_usize(43)));
}

#[test]
fn sum_with_zero_is_the_number() {
    let sum = BigInt::from_usize(0).add(&BigInt::from_usize(7));
    assert!(sum.same_as(&BigInt::from_usize(7)));
}

#[test]
fn same_as_compares_value_and_width() {
    let plain = BigInt::from_usize(9);
    let sized = BigInt::from_usize(9).with_size(Some(8));
    assert!(plain.same_as(&BigInt::from_usize(9)));
    assert!(!plain.same_as(&sized));
    assert!(sized.same_as(&BigInt::from_usize(9).with_size(Some(8))));
    assert!(!sized.same_as(&BigInt::from_usize(9).with_size(Some(16))));
}

#[test]
fn bits_of_a_number() {
    let n = BigInt::from_usize(0b1010);
    assert!(!n.get_bit(0));
    assert!(n.get_bit(1));
    assert!(!n.get_bit(2));
    assert!(n.get_bit(3));
    assert!(!n.get_bit(4));
    assert!(!n.get_bit(1000));
}

#[test]
fn clone_keeps_value_and_width() {
    let n = BigInt::from_usize(77).with_size(Some(12));
    let copy = n.clone();
    assert!(copy.same_as(&n));
}

#[test]
fn write_beyond_the_end_fills_with_zeros() {
    let mut bits = BitVec::new();
    bits.write(3, true);
    assert_eq!(bits.bits, bits_of("0001"));
    bits.write(1, true);
    assert_eq!(bits.bits, bits_of("0101"));
    bits.write(1, false);
    assert_eq!(bits.bits, bits_of("0001"));
}

#[test]
fn read_beyond_the_end_is_zero() {
    let mut bits = BitVec::new();
    bits.write(0, true);
    assert!(bits.read(0));
    assert!(!bits.read(1));
    assert!(!bits.read(100));
}

#[test]
fn declared_width_truncates_and_pads() {
    let mut bits = BitVec::new();
    bits.write_bigint(0, &BigInt::from_usize(0x1ff).with_size(Some(4)));
    assert_eq!(bits.bits, bits_of("1111"));
    let mut wide = BitVec::new();
    wide.write_bigint(2, &BigInt::from_usize(1).with_size(Some(4)));
    assert_eq!(wide.bits, bits_of("000001"));
}

#[test]
fn width_zero_writes_nothing() {
    let mut bits = BitVec::new();
    bits.write_bigint(5, &BigInt::from_usize(1).with_size(Some(0)));
    assert_eq!(bits.len(), 0);
}

#[test]
fn bit_strings_are_laid_over_one_another() {
    let mut image = BitVec::new();
    let mut first = BitVec::new();
    first.append_bits(&bits_of("1100"));
    let mut second = BitVec::new();
    second.append_bits(&bits_of("11"));
    image.write_bitvec(0, &first);
    image.write_bitvec(6, &second);
    assert_eq!(image.bits, bits_of("11000011"));
    image.write_bitvec(1, &second);
    assert_eq!(image.bits, bits_of("11100011"));
    let empty = BitVec::new();
    image.write_bitvec(40, &empty);
    assert_eq!(image.len(), 8);
}

#[test]
fn bit_strings_compare_by_length_and_bits() {
    let mut a = BitVec::new();
    a.append_bits(&bits_of("10"));
    let mut b = BitVec::new();
    b.append_bits(&bits_of("10"));
    assert!(a.same_as(&b));
    b.write(2, false);
    assert!(!a.same_as(&b));
    a.write(2, true);
    assert!(!a.same_as(&b));
}

#[test]
fn negative_numbers_need_their_sign_bit() {
    let minus = |n: usize| BigInt::from_usize(n).negated();
    assert_eq!(minus(1).min_size(), 1);
    assert_eq!(minus(2).min_size(), 2);
    assert_eq!(minus(3).min_size(), 3);
    assert_eq!(minus(128).min_size(), 8);
    assert_eq!(minus(129).min_size(), 9);
    assert!(minus(1).is_negative());
    assert!(!minus(0).is_negative());
    assert_eq!(minus(0).min_size(), 1);
}

#[test]
fn negative_numbers_are_written_in_twos_complement() {
    let mut bits = BitVec::new();
    bits.write_bigint(0, &BigInt::from_usize(2).negated().with_size(Some(8)));
    assert_eq!(bits.bits, bits_of("11111110"));
    let mut least = BitVec::new();
    least.write_bigint(0, &BigInt::from_usize(2).negated());
    assert_eq!(least.bits, bits_of("10"));
    assert!(BigInt::from_usize(1).negated().get_bit(1000));
}

#[test]
fn negation_undoes_itself_and_sums_to_zero() {
    let n = BigInt::from_usize(12345);
    assert!(n.negated().negated().same_as(&n));
    assert!(n.add(&n.negated()).same_as(&BigInt::from_usize(0)));
    let difference = BigInt::from_usize(5).add(&BigInt::from_usize(12).negated());
    assert!(difference.same_as(&BigInt::from_usize(7).negated()));
    assert!(difference.is_negative());
}

#[test]
fn numbers_held_in_different_lengths_are_the_same() {
    let short = BigInt { bits: vec![true, false], size: None };
    let long = BigInt { bits: vec![true, false, false, false], size: None };
    let empty = BigInt { bits: vec![], size: None };
    assert!(short.same_as(&long));
    assert!(short.same_as(&BigInt::from_usize(1)));
    assert!(empty.same_as(&BigInt::from_usize(0)));
    assert_eq!(long.min_size(), 1);
    assert_eq!(empty.min_size(), 1);
    assert!(!empty.get_bit(3));
    assert!(empty.add(&short).same_as(&long));
}
