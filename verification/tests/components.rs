use par_sieve::base::odd_len;
use par_sieve::emit::emit_primes;
use par_sieve::merge::merge;
use par_sieve::parallel::{sieve_plan, sieve_plan_in, sieve_plan_in_turn, sieve_plan_on};
use par_sieve::roots::{sqrt_floor, square_exceeds};
use par_sieve::{base_primes, plan_chunks, sieve_chunk, ChunkDescriptor, OddBitset};

#[test]
fn sqrt_floor_rounds_down() {
    assert_eq!(sqrt_floor(0), 0);
    assert_eq!(sqrt_floor(1), 1);
    assert_eq!(sqrt_floor(3), 1);
    assert_eq!(sqrt_floor(4), 2);
    assert_eq!(sqrt_floor(99), 9);
    assert_eq!(sqrt_floor(100), 10);
    assert_eq!(sqrt_floor(1_000_000), 1_000);
    assert_eq!(sqrt_floor(u32::MAX as usize), 65_535);
}

#[test]
fn square_exceeds_compares_the_square() {
    assert!(!square_exceeds(3, 9));
    assert!(square_exceeds(3, 8));
    assert!(!square_exceeds(1, 1));
    assert!(square_exceeds(1, 0));
    assert!(square_exceeds(u64::MAX, u64::MAX));
    assert!(!square_exceeds(4_294_967_295, u64::MAX));
    assert!(square_exceeds(4_294_967_296, u64::MAX));
}

#[test]
fn odd_len_counts_odd_values() {
    assert_eq!(odd_len(0), 0);
    assert_eq!(odd_len(1), 1);
    assert_eq!(odd_len(2), 1);
    assert_eq!(odd_len(3), 2);
    assert_eq!(odd_len(10), 5);
    assert_eq!(odd_len(usize::MAX), usize::MAX / 2 + 1);
}

#[test]
fn base_primes_reach_the_square_root() {
    assert_eq!(base_primes(0), vec![2]);
    assert_eq!(base_primes(1), vec![2]);
    assert_eq!(base_primes(3), vec![2]);
    assert_eq!(base_primes(8), vec![2]);
    assert_eq!(base_primes(9), vec![2, 3]);
    assert_eq!(base_primes(100), vec![2, 3, 5, 7]);
    assert_eq!(base_primes(120), vec![2, 3, 5, 7]);
    assert_eq!(base_primes(121), vec![2, 3, 5, 7, 11]);
    assert_eq!(base_primes(10_000).len(), 25);
    assert_eq!(base_primes(10_000).last(), Some(&97));
}

#[test]
fn plan_has_equal_chunks_and_a_shorter_last_one() {
    let plan = plan_chunks(2, 12, 4);
    assert_eq!(
        plan,
        vec![
            ChunkDescriptor { start: 2, length: 4 },
            ChunkDescriptor { start: 6, length: 4 },
            ChunkDescriptor { start: 10, length: 2 },
        ]
    );
}

#[test]
fn plan_that_divides_evenly() {
    let plan = plan_chunks(3, 9, 3);
    assert_eq!(
        plan,
        vec![ChunkDescriptor { start: 3, length: 3 }, ChunkDescriptor { start: 6, length: 3 }]
    );
}

#[test]
fn plan_for_an_empty_range_is_empty() {
    assert_eq!(plan_chunks(5, 5, 4), Vec::<ChunkDescriptor>::new());
    assert_eq!(plan_chunks(6, 5, 4), Vec::<ChunkDescriptor>::new());
}

#[test]
fn plan_with_chunks_of_one() {
    let plan = plan_chunks(1, 4, 1);
    assert_eq!(
        plan,
        vec![
            ChunkDescriptor { start: 1, length: 1 },
            ChunkDescriptor { start: 2, length: 1 },
            ChunkDescriptor { start: 3, length: 1 },
        ]
    );
}

#[test]
fn plan_with_one_large_chunk() {
    let plan = plan_chunks(7, 20, 800_000);
    assert_eq!(plan, vec![ChunkDescriptor { start: 7, length: 13 }]);
    let plan = plan_chunks(usize::MAX - 3, usize::MAX, usize::MAX);
    assert_eq!(plan, vec![ChunkDescriptor { start: usize::MAX - 3, length: 3 }]);
}

#[test]
fn chunk_of_eleven_to_nineteen() {
    let base = vec![2, 3];
    let found = sieve_chunk(ChunkDescriptor { start: 5, length: 5 }, &base);
    assert_eq!(found, vec![11, 13, 17, 19]);
}

#[test]
fn chunk_that_starts_on_a_multiple() {
    // Index 7 stands for 15, a multiple of both 3 and 5.
    let base = vec![2, 3, 5];
    let found = sieve_chunk(ChunkDescriptor { start: 7, length: 6 }, &base);
    assert_eq!(found, vec![17, 19, 23]);
}

#[test]
fn chunk_with_base_primes_it_does_not_need() {
    let base = vec![2, 3, 5, 7, 11, 13, 17, 19];
    let found = sieve_chunk(ChunkDescriptor { start: 50, length: 25 }, &base);
    assert_eq!(found, vec![101, 103, 107, 109, 113, 127, 131, 137, 139, 149]);
}

#[test]
fn chunk_without_primes() {
    // 91, 93 and 95 are all composite.
    let base = vec![2, 3, 5, 7];
    let found = sieve_chunk(ChunkDescriptor { start: 45, length: 3 }, &base);
    assert_eq!(found, Vec::<u64>::new());
}

#[test]
fn empty_chunk_has_no_primes() {
    let base = vec![2];
    assert_eq!(sieve_chunk(ChunkDescriptor { start: 4, length: 0 }, &base), Vec::<u64>::new());
}

#[test]
fn chunk_at_index_one_with_only_two_as_base() {
    let base = vec![2];
    assert_eq!(sieve_chunk(ChunkDescriptor { start: 1, length: 3 }, &base), vec![3, 5, 7]);
}

#[test]
fn emit_appends_the_standing_values() {
    // Flags for the indices 5..10, that is 11, 13, 15, 17, 19.
    let mut sieve = OddBitset::new(5);
    sieve.clear(2);
    let mut out = vec![2, 3, 5, 7];
    emit_primes(&sieve, 5, &mut out);
    assert_eq!(out, vec![2, 3, 5, 7, 11, 13, 17, 19]);
}

#[test]
fn plan_is_sieved_in_plan_order() {
    let base = base_primes(400);
    let plan = plan_chunks(10, 200, 7);
    let parts = sieve_plan(&plan, &base);
    assert_eq!(parts.len(), plan.len());
    for (chunk, part) in plan.iter().zip(parts.iter()) {
        assert_eq!(*part, sieve_chunk(*chunk, &base));
    }
    assert_eq!(parts[0], vec![23, 29, 31]);
}

#[test]
fn pool_and_calling_thread_give_the_same_parts() {
    let base = base_primes(10_000);
    let plan = plan_chunks(50, 5_000, 13);
    let in_turn = sieve_plan_in_turn(&plan, &base);
    assert_eq!(sieve_plan(&plan, &base), in_turn);
    assert_eq!(sieve_plan_on(&plan, &base, 0), in_turn);
    assert_eq!(sieve_plan_on(&plan, &base, 1), in_turn);
    assert_eq!(sieve_plan_on(&plan, &base, 4), in_turn);
    assert_eq!(in_turn[0], vec![101, 103, 107, 109, 113]);
}

#[test]
fn empty_plan_gives_no_parts() {
    let base = vec![2];
    let plan = Vec::<ChunkDescriptor>::new();
    assert_eq!(sieve_plan(&plan, &base), Vec::<Vec<u64>>::new());
    assert_eq!(sieve_plan_in_turn(&plan, &base), Vec::<Vec<u64>>::new());
    assert_eq!(sieve_plan_on(&plan, &base, 2), Vec::<Vec<u64>>::new());
}

#[test]
fn merge_keeps_the_order_of_the_parts() {
    let merged = merge(vec![2, 3], &vec![vec![5, 7], vec![], vec![11], vec![13, 17, 19]]);
    assert_eq!(merged, vec![2, 3, 5, 7, 11, 13, 17, 19]);
    assert_eq!(merge(vec![2], &vec![]), vec![2]);
    assert_eq!(merge(vec![], &vec![vec![], vec![]]), Vec::<u64>::new());
}

#[test]
fn without_a_pool_the_calling_thread_sieves() {
    let base = base_primes(2_500);
    let plan = plan_chunks(25, 1_250, 100);
    let parts = sieve_plan_in(&None, &plan, &base);
    assert_eq!(parts, sieve_plan_in_turn(&plan, &base));
    assert_eq!(parts.len(), 13);
    assert_eq!(parts[0][0], 53);
}

#[test]
fn a_pool_of_three_sieves_in_plan_order() {
    let pool = rayon::ThreadPoolBuilder::new().num_threads(3).build().ok();
    assert!(pool.is_some());
    let base = base_primes(2_500);
    let plan = plan_chunks(25, 1_250, 100);
    let parts = sieve_plan_in(&pool, &plan, &base);
    assert_eq!(parts, sieve_plan_in_turn(&plan, &base));
    let all: Vec<u64> = parts.concat();
    assert_eq!(all.first(), Some(&53));
    assert_eq!(all.last(), Some(&2_477));
}
