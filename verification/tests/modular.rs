use par_sieve::{add_mod, sub_mod};

#[test]
fn add_mod_small_values() {
    assert_eq!(add_mod(5, 9, 7), 0);
    assert_eq!(add_mod(3, 2, 7), 5);
    assert_eq!(add_mod(6, 6, 7), 5);
    assert_eq!(add_mod(0, 0, 1), 0);
    assert_eq!(add_mod(100, 23, 10), 3);
}

#[test]
fn add_mod_near_the_top_of_the_range() {
    assert_eq!(add_mod(u64::MAX, u64::MAX, u64::MAX), 0);
    assert_eq!(add_mod(u64::MAX - 1, u64::MAX - 1, u64::MAX), u64::MAX - 2);
    assert_eq!(add_mod(u64::MAX, u64::MAX, u64::MAX - 1), 2);
    assert_eq!(add_mod(u64::MAX, 1, u64::MAX), 1);
}

#[test]
fn sub_mod_small_values() {
    assert_eq!(sub_mod(5, 3, 7), 2);
    assert_eq!(sub_mod(3, 5, 7), 5);
    assert_eq!(sub_mod(0, 1, 7), 6);
    assert_eq!(sub_mod(4, 4, 7), 0);
    assert_eq!(sub_mod(4, 11, 7), 0);
    assert_eq!(sub_mod(10, 0, 1), 0);
}

#[test]
fn sub_mod_near_the_top_of_the_range() {
    assert_eq!(sub_mod(0, u64::MAX, u64::MAX), 0);
    assert_eq!(sub_mod(0, u64::MAX - 1, u64::MAX), 1);
    assert_eq!(sub_mod(u64::MAX - 1, 1, u64::MAX), u64::MAX - 2);
    assert_eq!(sub_mod(1, u64::MAX - 1, u64::MAX), 2);
}

#[test]
fn sub_mod_gives_the_offset_of_the_first_multiple() {
    // For p = 7 the square 49 sits at odd index 24; from index 50 on (value
    // 101) the first multiple of 7 is 105, two indices further.
    assert_eq!(sub_mod((7 * 7 - 1) / 2, 50, 7), 2);
    // For p = 3 and a chunk that starts at index 5 (value 11): 15 is at
    // offset 2.
    assert_eq!(sub_mod((3 * 3 - 1) / 2, 5, 3), 2);
}
