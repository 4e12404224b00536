//! Sieving the chunks of a plan, each on its own, on a pool of worker threads
//! or one after the other; the results are kept in the order of the plan.

use crate::chunks::ChunkDescriptor;
use crate::odd::odd_primes;
use crate::primes::as_ints;
use crate::segment::{chunk_ready, sieve_chunk};
use rayon::iter::{IntoParallelRefIterator, ParallelIterator};
use rayon::{ThreadPool, ThreadPoolBuilder};
use vstd::prelude::*;

verus! {

/// rayon's `ThreadPool`, carried from where it is built to where the work is
/// installed on it; nothing is known of what it holds.
#[verifier::external_type_specification]
#[verifier::external_body]
pub struct ExThreadPool(ThreadPool);

/// Every chunk of `plan` can be sieved with `base`.
pub open spec fn plan_ready(plan: Seq<ChunkDescriptor>, base: Seq<u64>) -> bool {
    forall|i: int| 0 <= i < plan.len() ==> chunk_ready(#[trigger] plan[i], base)
}

/// `parts` holds, for each chunk of `plan` and in the order of the plan, the
/// primes of that chunk.
pub open spec fn parts_match(parts: Seq<Vec<u64>>, plan: Seq<ChunkDescriptor>) -> bool {
    &&& parts.len() == plan.len()
    &&& forall|i: int|
        0 <= i < plan.len() ==> as_ints(#[trigger] parts[i]@) == odd_primes(
            plan[i].start as int,
            plan[i].end(),
        )
}

/// rayon's `par_iter`, `map` and `collect` on the plan, with one call of
/// `sieve_chunk` per chunk. The calls may run on any worker thread and in any
/// order. What is taken on trust of rayon: the collected vector is as long as
/// the plan and holds at each position what the call for the chunk at that
/// position returned. What that call returns is `sieve_chunk`'s own contract.
#[verifier::external_body]
fn par_sieve(plan: &Vec<ChunkDescriptor>, base: &Vec<u64>) -> (parts: Vec<Vec<u64>>)
    requires
        forall|i: int|
            0 <= i < plan@.len() ==> call_requires(sieve_chunk, (#[trigger] plan@[i], base)),
    ensures
        parts@.len() == plan@.len(),
        forall|i: int|
            0 <= i < plan@.len() ==> call_ensures(
                sieve_chunk,
                (plan@[i], base),
                #[trigger] parts@[i],
            ),
{
    plan.par_iter().map(|chunk| sieve_chunk(*chunk, base)).collect()
}

/// `ThreadPoolBuilder::num_threads` and `build`: a pool of `workers` threads,
/// or nothing where the threads could not be started. With `workers == 0`
/// rayon chooses the number itself. Whether a pool comes back depends on the
/// machine, so nothing is stated of the result.
#[verifier::external_body]
fn build_pool(workers: usize) -> (pool: Option<ThreadPool>) {
    ThreadPoolBuilder::new().num_threads(workers).build().ok()
}

/// `ThreadPool::install`: runs `sieve_plan` with the parallel work inside it
/// done by the threads of `pool`. What is taken on trust of rayon: it hands
/// back what that one call of `sieve_plan` returned.
#[verifier::external_body]
fn install_sieve(pool: &ThreadPool, plan: &Vec<ChunkDescriptor>, base: &Vec<u64>) -> (parts: Vec<
    Vec<u64>,
>)
    requires
        call_requires(sieve_plan, (plan, base)),
    ensures
        call_ensures(sieve_plan, (plan, base), parts),
{
    pool.install(|| sieve_plan(plan, base))
}

/// Sieves every chunk of `plan` on rayon's current pool of worker threads.
pub fn sieve_plan(plan: &Vec<ChunkDescriptor>, base: &Vec<u64>) -> (parts: Vec<Vec<u64>>)
    requires
        plan_ready(plan@, base@),
    ensures
        parts_match(parts@, plan@),
{
    par_sieve(plan, base)
}

/// Sieves every chunk of `plan` in the calling thread, one after the other.
pub fn sieve_plan_in_turn(plan: &Vec<ChunkDescriptor>, base: &Vec<u64>) -> (parts: Vec<Vec<u64>>)
    requires
        plan_ready(plan@, base@),
    ensures
        parts_match(parts@, plan@),
{
    let mut parts: Vec<Vec<u64>> = Vec::new();
    let mut i: usize = 0;
    while i < plan.len()
        invariant
            i <= plan@.len(),
            plan_ready(plan@, base@),
            parts_match(parts@, plan@.take(i as int)),
        decreases plan@.len() - i,
    {
        let ghost earlier = parts@;
        let found = sieve_chunk(plan[i], base);
        parts.push(found);
        proof {
            let done = plan@.take(i + 1);
            assert forall|j: int| 0 <= j < done.len() implies as_ints(#[trigger] parts@[j]@)
                == odd_primes(done[j].start as int, done[j].end()) by {
                if j < i {
                    assert(parts@[j] == earlier[j]);
                    assert(done[j] == plan@.take(i as int)[j]);
                }
            }
        }
        i += 1;
    }
    proof {
        assert(plan@.take(i as int) =~= plan@);
    }
    parts
}

/// Sieves every chunk of `plan` on the threads of `pool`, or in the calling
/// thread where there is no pool.
pub fn sieve_plan_in(pool: &Option<ThreadPool>, plan: &Vec<ChunkDescriptor>, base: &Vec<u64>) -> (parts:
    Vec<Vec<u64>>)
    requires
        plan_ready(plan@, base@),
    ensures
        parts_match(parts@, plan@),
{
    match pool {
        Some(workers) => install_sieve(workers, plan, base),
        None => sieve_plan_in_turn(plan, base),
    }
}

/// Sieves every chunk of `plan` on `workers` threads. With `workers == 0`
/// the work goes to rayon's own pool, whose width rayon chooses. Where a pool
/// of the asked width cannot be started, the chunks are sieved in the calling
/// thread: the width is a matter of speed and never of the result.
pub fn sieve_plan_on(plan: &Vec<ChunkDescriptor>, base: &Vec<u64>, workers: usize) -> (parts: Vec<
    Vec<u64>,
>)
    requires
        plan_ready(plan@, base@),
    ensures
        parts_match(parts@, plan@),
{
    if workers == 0 {
        sieve_plan(plan, base)
    } else {
        let pool = build_pool(workers);
        sieve_plan_in(&pool, plan, base)
    }
}

} // verus!
