//! The whole sieve: base primes, chunk plan, chunks sieved on the worker
//! pool, and the merge.

use crate::base::{base_limit, base_primes, odd_len};
use crate::bitset::MAX_BITS;
use crate::chunks::{
    chunk_plan, lemma_chunk_plan_tiles, lemma_tiles_primes, lemma_tiles_starts_ascend, plan_chunks,
    plan_primes, tiles, ChunkDescriptor,
};
use crate::merge::{concat_all, lemma_as_ints_add, lemma_concat_matches_plan, merge};
use crate::odd::{lemma_odd_primes_split, lemma_primes_upto_by_odd_index, odd_count, odd_primes};
use crate::parallel::{plan_ready, sieve_plan_on};
use crate::primes::{
    as_ints, is_prime, lemma_primes_between_members, primes_between, primes_upto,
};
use crate::roots::{int_sqrt, lemma_int_sqrt_bounds, lemma_square_le, sqrt_floor};
use crate::segment::{chunk_ready, covers, first_value, last_value};
use vstd::prelude::*;

verus! {

/// The chunk size that `get_primes` works with.
pub const DEFAULT_CHUNK_SIZE: usize = 800_000;

/// The chunk size that the sieve works with when asked for `chunk_size`: the
/// same, but no more than one set of flags can hold.
pub open spec fn usable_chunk_size(chunk_size: usize) -> usize {
    if chunk_size > MAX_BITS {
        MAX_BITS
    } else {
        chunk_size
    }
}

/// What the segmented sieve puts together for the bound `n` with chunks of
/// `chunk_size` indices: the base primes, then the primes of each chunk of
/// the plan, in the order of the plan.
pub open spec fn sieve_model(n: usize, chunk_size: usize) -> Seq<int> {
    if n < 2 {
        Seq::empty()
    } else {
        primes_upto(base_limit(n as int)) + plan_primes(
            chunk_plan(
                odd_count(int_sqrt(n as int)) as usize,
                odd_count(n as int) as usize,
                usable_chunk_size(chunk_size),
            ),
        )
    }
}

/// For `n >= 1`, the base primes of `n` are 2 and the primes at the odd
/// indices from 1 up to the last one whose value is at most the square root
/// of `n`.
pub proof fn lemma_base_by_odd_index(n: int)
    requires
        n >= 1,
    ensures
        1 <= int_sqrt(n) <= n,
        primes_upto(base_limit(n)) == seq![2int] + odd_primes(1, odd_count(int_sqrt(n))),
{
    lemma_int_sqrt_bounds(n);
    let r = int_sqrt(n);
    if r < 1 {
        assert((r + 1) * (r + 1) == 1) by (nonlinear_arith)
            requires
                r == 0,
        ;
    }
    assert(r <= r * r) by (nonlinear_arith)
        requires
            r >= 1,
    ;
    if r >= 2 {
        lemma_primes_upto_by_odd_index(r);
    } else {
        lemma_primes_upto_by_odd_index(2);
    }
}

/// The segmented sieve finds the primes up to `n`, whatever the chunk size.
pub proof fn lemma_sieve_model_is_primes(n: usize, chunk_size: usize)
    requires
        chunk_size > 0,
    ensures
        sieve_model(n, chunk_size) == primes_upto(n as int),
{
    if n < 2 {
        reveal_with_fuel(primes_between, 2);
        assert(primes_upto(n as int) =~= Seq::empty());
    } else {
        let r = int_sqrt(n as int);
        lemma_base_by_odd_index(n as int);
        let lo = odd_count(r) as usize;
        let hi = odd_count(n as int) as usize;
        let size = usable_chunk_size(chunk_size);
        lemma_chunk_plan_tiles(lo, hi, size);
        lemma_tiles_primes(chunk_plan(lo, hi, size), lo as int, hi as int);
        lemma_odd_primes_split(1, lo as int, hi as int);
        lemma_primes_upto_by_odd_index(n as int);
        assert((seq![2int] + odd_primes(1, lo as int)) + odd_primes(lo as int, hi as int)
            =~= seq![2int] + (odd_primes(1, lo as int) + odd_primes(lo as int, hi as int)));
    }
}

/// The base primes of `n` serve to sieve every chunk of a plan that covers
/// the odd indices between the square root of `n` and `n`.
pub proof fn lemma_plan_ready(n: usize, base: Seq<u64>, plan: Seq<ChunkDescriptor>)
    requires
        n >= 2,
        as_ints(base) == primes_upto(base_limit(n as int)),
        tiles(plan, odd_count(int_sqrt(n as int)), odd_count(n as int)),
        forall|i: int| 0 <= i < plan.len() ==> (#[trigger] plan[i]).length <= MAX_BITS,
    ensures
        plan_ready(plan, base),
{
    let r = int_sqrt(n as int);
    let limit = base_limit(n as int);
    lemma_base_by_odd_index(n as int);
    lemma_int_sqrt_bounds(n as int);
    lemma_primes_between_members(2, limit + 1);
    let listed = primes_upto(limit);
    assert(listed[0] == 2);
    assert forall|i: int| 0 <= i < base.len() implies listed[i] == #[trigger] base[i] as int by {
        assert(as_ints(base)[i] == base[i] as int);
    }
    if plan.len() > 0 {
        lemma_tiles_starts_ascend(plan, odd_count(r), odd_count(n as int));
    }
    assert forall|i: int| 0 <= i < plan.len() implies chunk_ready(
        #[trigger] plan[i],
        base,
    ) by {
        let chunk = plan[i];
        assert(odd_count(r) <= chunk.start < chunk.end() <= odd_count(n as int));
        assert(first_value(chunk) > r);
        assert(last_value(chunk) <= n);
        assert forall|q: int| #[trigger] is_prime(q) && q * q <= last_value(chunk) implies q
            < first_value(chunk) && as_ints(base).contains(q) by {
            if q > r {
                lemma_square_le(r + 1, q);
            }
            assert(listed.contains(q));
        }
        assert(covers(base, chunk));
    }
}

/// The primes up to `n`, in ascending order, found with chunks of
/// `chunk_size` odd indices on `workers` threads (`workers == 0`: as many as
/// rayon chooses). Neither setting changes the result.
pub fn get_primes_with(n: usize, chunk_size: usize, workers: usize) -> (out: Vec<u64>)
    requires
        chunk_size > 0,
    ensures
        as_ints(out@) == primes_upto(n as int),
        as_ints(out@) == sieve_model(n, chunk_size),
{
    proof {
        lemma_sieve_model_is_primes(n, chunk_size);
    }
    if n < 2 {
        let out: Vec<u64> = Vec::new();
        assert(as_ints(out@) =~= Seq::<int>::empty());
        return out;
    }
    let root = sqrt_floor(n);
    let lo = odd_len(root);
    let hi = odd_len(n);
    let base = base_primes(n);
    proof {
        lemma_base_by_odd_index(n as int);
        lemma_primes_upto_by_odd_index(n as int);
    }
    if lo >= hi {
        return base;
    }
    let size = if chunk_size > MAX_BITS {
        MAX_BITS
    } else {
        chunk_size
    };
    let plan = plan_chunks(lo, hi, size);
    proof {
        lemma_plan_ready(n, base@, plan@);
    }
    let parts = sieve_plan_on(&plan, &base, workers);
    let ghost head = base@;
    let out = merge(base, &parts);
    proof {
        lemma_concat_matches_plan(parts@, plan@);
        lemma_as_ints_add(head, concat_all(parts@));
    }
    out
}

/// The primes up to `n`, in ascending order; none for `n < 2`.
pub fn get_primes(n: usize) -> (out: Vec<u64>)
    ensures
        as_ints(out@) == primes_upto(n as int),
{
    get_primes_with(n, DEFAULT_CHUNK_SIZE, 0)
}

} // verus!
