use par_sieve::{get_primes, get_primes_with};

fn divides_none(v: u64) -> bool {
    let mut d = 2;
    while d < v {
        if v % d == 0 {
            return false;
        }
        d += 1;
    }
    v >= 2
}

fn by_trial_division(n: u64) -> Vec<u64> {
    (2..=n).filter(|v| divides_none(*v)).collect()
}

#[test]
fn agrees_with_trial_division_up_to_600() {
    for n in 0..=600usize {
        assert_eq!(get_primes(n), by_trial_division(n as u64), "n = {}", n);
    }
}

#[test]
fn agrees_with_trial_division_at_5000() {
    assert_eq!(get_primes(5000), by_trial_division(5000));
}

#[test]
fn agrees_with_trial_division_with_tiny_chunks() {
    for n in 0..=300usize {
        assert_eq!(get_primes_with(n, 1, 0), by_trial_division(n as u64), "n = {}", n);
        assert_eq!(get_primes_with(n, 2, 0), by_trial_division(n as u64), "n = {}", n);
    }
}

#[test]
fn squares_of_primes_are_left_out() {
    // 9, 25, 49 and 121 sit right where a chunk or the base sieve begins.
    for n in [9usize, 25, 49, 121, 169, 289] {
        let primes = get_primes(n);
        assert!(!primes.contains(&(n as u64)), "n = {}", n);
        assert_eq!(primes, by_trial_division(n as u64));
    }
}
