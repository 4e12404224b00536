use par_sieve::{get_primes, get_primes_with, DEFAULT_CHUNK_SIZE};

#[test]
fn default_chunk_size_is_800_000() {
    assert_eq!(DEFAULT_CHUNK_SIZE, 800_000);
}

#[test]
fn repeated_calls_agree() {
    let first = get_primes(50_000);
    let second = get_primes(50_000);
    let third = get_primes(50_000);
    assert_eq!(first, second);
    assert_eq!(second, third);
}

#[test]
fn chunk_size_does_not_change_the_result() {
    let n = 100_000usize;
    let expected = get_primes(n);
    assert_eq!(expected.len(), 9_592);
    for chunk_size in [1usize, 7, 800_000, n] {
        assert_eq!(get_primes_with(n, chunk_size, 0), expected, "chunk size {}", chunk_size);
    }
}

#[test]
fn chunk_size_does_not_change_small_results() {
    for n in [2usize, 3, 4, 9, 10, 30, 31, 97, 100] {
        let expected = get_primes(n);
        for chunk_size in [1usize, 7, 800_000, n] {
            assert_eq!(get_primes_with(n, chunk_size, 0), expected, "n = {}", n);
        }
    }
}

#[test]
fn worker_count_does_not_change_the_result() {
    let n = 200_000usize;
    let expected = get_primes(n);
    for workers in [0usize, 1, 2, 3, 8] {
        assert_eq!(get_primes_with(n, 1_000, workers), expected, "workers {}", workers);
    }
}

#[test]
fn huge_chunk_size_is_accepted() {
    assert_eq!(get_primes_with(1_000, usize::MAX, 0), get_primes(1_000));
    assert_eq!(get_primes_with(1_000, usize::MAX / 8 + 1, 2), get_primes(1_000));
}
