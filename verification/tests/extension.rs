use par_sieve::get_primes;

#[test]
fn result_is_strictly_ascending() {
    let primes = get_primes(20_000);
    for pair in primes.windows(2) {
        assert!(pair[0] < pair[1]);
    }
}

#[test]
fn smaller_bound_gives_the_prefix_up_to_it() {
    let all = get_primes(2_000);
    for m in 0..2_000usize {
        let low = get_primes(m);
        let expected: Vec<u64> = all.iter().copied().filter(|v| *v <= m as u64).collect();
        assert_eq!(low, expected, "m = {}", m);
        assert_eq!(&all[..low.len()], &low[..]);
    }
}

#[test]
fn prime_bound_is_included() {
    assert_eq!(get_primes(29).last(), Some(&29));
    assert_eq!(get_primes(28).last(), Some(&23));
    assert_eq!(get_primes(999_983).last(), Some(&999_983));
    assert_eq!(get_primes(999_982).last(), Some(&999_979));
}
