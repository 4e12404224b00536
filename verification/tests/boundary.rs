use par_sieve::{get_primes, get_primes_with};

#[test]
fn no_primes_below_two() {
    assert_eq!(get_primes(0), Vec::<u64>::new());
    assert_eq!(get_primes(1), Vec::<u64>::new());
}

#[test]
fn two_is_the_first_prime() {
    assert_eq!(get_primes(2), vec![2]);
    assert_eq!(get_primes(3), vec![2, 3]);
    assert_eq!(get_primes(4), vec![2, 3]);
}

#[test]
fn primes_up_to_ten() {
    assert_eq!(get_primes(10), vec![2, 3, 5, 7]);
}

#[test]
fn primes_up_to_thirty() {
    assert_eq!(get_primes(30), vec![2, 3, 5, 7, 11, 13, 17, 19, 23, 29]);
}

#[test]
fn primes_up_to_a_million() {
    let primes = get_primes(1_000_000);
    assert_eq!(primes.len(), 78_498);
    assert_eq!(primes[0], 2);
    assert_eq!(primes[primes.len() - 1], 999_983);
}

#[test]
fn small_chunks_on_two_workers() {
    assert_eq!(get_primes_with(100, 3, 2), get_primes(100));
}
