use par_sieve::bitset::MAX_BITS;
use par_sieve::OddBitset;

#[test]
fn new_set_is_all_standing() {
    let set = OddBitset::new(5);
    assert_eq!(set.len(), 5);
    assert_eq!(set.ones(), vec![0, 1, 2, 3, 4]);
    for index in 0..5 {
        assert!(set.get(index));
    }
}

#[test]
fn empty_set_has_no_ones() {
    let set = OddBitset::new(0);
    assert_eq!(set.len(), 0);
    assert_eq!(set.ones(), Vec::<usize>::new());
}

#[test]
fn clear_marks_one_candidate() {
    let mut set = OddBitset::new(6);
    set.clear(2);
    assert!(!set.get(2));
    assert!(set.get(1));
    assert!(set.get(3));
    assert_eq!(set.ones(), vec![0, 1, 3, 4, 5]);
    assert_eq!(set.len(), 6);
}

#[test]
fn clear_twice_is_clear_once() {
    let mut set = OddBitset::new(4);
    set.clear(1);
    set.clear(1);
    assert_eq!(set.ones(), vec![0, 2, 3]);
}

#[test]
fn ones_can_be_asked_again() {
    let mut set = OddBitset::new(70);
    set.clear(0);
    set.clear(64);
    let first = set.ones();
    let second = set.ones();
    assert_eq!(first, second);
    assert_eq!(first.len(), 68);
    assert_eq!(first[0], 1);
    assert_eq!(first[67], 69);
}

#[test]
fn clear_every_walks_the_stride() {
    let mut set = OddBitset::new(20);
    set.clear_every(4, 3);
    assert_eq!(set.ones(), vec![0, 1, 2, 3, 5, 6, 8, 9, 11, 12, 14, 15, 17, 18]);
}

#[test]
fn clear_every_past_the_end_changes_nothing() {
    let mut set = OddBitset::new(8);
    set.clear_every(8, 1);
    set.clear_every(100, 3);
    assert_eq!(set.ones(), vec![0, 1, 2, 3, 4, 5, 6, 7]);
}

#[test]
fn clear_every_with_a_stride_longer_than_the_set() {
    let mut set = OddBitset::new(8);
    set.clear_every(7, usize::MAX);
    assert_eq!(set.ones(), vec![0, 1, 2, 3, 4, 5, 6]);
}

#[test]
fn clear_every_from_zero_by_one_clears_all() {
    let mut set = OddBitset::new(9);
    set.clear_every(0, 1);
    assert_eq!(set.ones(), Vec::<usize>::new());
}

#[test]
fn capacity_is_that_of_a_bit_slice() {
    assert_eq!(MAX_BITS, usize::MAX >> 3);
    assert_eq!(MAX_BITS, bitvec::slice::BitSlice::<usize, bitvec::order::Lsb0>::MAX_BITS);
}
