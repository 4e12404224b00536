//! Laws of the sieve that relate several results to each other.

use crate::primes::{
    as_ints, lemma_primes_between_members, lemma_primes_between_split, primes_between, primes_upto,
};
use crate::sieve::{lemma_sieve_model_is_primes, sieve_model};
use vstd::prelude::*;

verus! {

/// Two results for the same bound are the same sequence: whatever the chunk
/// size and the number of workers of either run, a sequence whose values are
/// the primes up to `n` is determined by `n` alone.
pub proof fn lemma_result_is_determined(n: int, first: Seq<u64>, second: Seq<u64>)
    requires
        as_ints(first) == primes_upto(n),
        as_ints(second) == primes_upto(n),
    ensures
        first == second,
{
    assert(first.len() == as_ints(first).len());
    assert(second.len() == as_ints(second).len());
    assert forall|i: int| 0 <= i < first.len() implies first[i] == second[i] by {
        assert(as_ints(first)[i] == first[i] as int);
        assert(as_ints(second)[i] == second[i] as int);
    }
    assert(first =~= second);
}

/// The primes up to `n` come in strictly ascending order, so none comes
/// twice.
pub proof fn lemma_primes_upto_ascending(n: int)
    ensures
        forall|i: int, j: int|
            0 <= i < j < primes_upto(n).len() ==> #[trigger] primes_upto(n)[i]
                < #[trigger] primes_upto(n)[j],
{
    lemma_primes_between_members(2, n + 1);
}

/// For `m <= n`, the primes up to `m` are the start of the primes up to `n`,
/// and exactly the part of them that is at most `m`: every value of that
/// start is at most `m`, and every value after it is above `m`.
pub proof fn lemma_primes_upto_extends(m: int, n: int)
    requires
        m <= n,
    ensures
        primes_upto(m).len() <= primes_upto(n).len(),
        primes_upto(n).take(primes_upto(m).len() as int) == primes_upto(m),
        forall|i: int|
            0 <= i < primes_upto(n).len() ==> (i < primes_upto(m).len() <==> #[trigger] primes_upto(
                n,
            )[i] <= m),
{
    let low = primes_upto(m);
    let all = primes_upto(n);
    if m < 1 {
        assert(low =~= Seq::empty());
        lemma_primes_between_members(2, n + 1);
        assert(all.take(0) =~= low);
    } else {
        let rest = primes_between(m + 1, n + 1);
        lemma_primes_between_split(2, m + 1, n + 1);
        lemma_primes_between_members(2, m + 1);
        lemma_primes_between_members(m + 1, n + 1);
        assert(all == low + rest);
        assert(all.take(low.len() as int) =~= low);
        assert forall|i: int| 0 <= i < all.len() implies (i < low.len() <==> #[trigger] all[i]
            <= m) by {
            if i < low.len() {
                assert(all[i] == low[i]);
            } else {
                assert(all[i] == rest[i - low.len()]);
            }
        }
    }
}

/// The chunk size does not change what the segmented sieve puts together:
/// for a fixed bound, any two chunk sizes give the same sequence.
pub proof fn lemma_chunk_size_invariance(n: usize, first_size: usize, second_size: usize)
    requires
        first_size > 0,
        second_size > 0,
    ensures
        sieve_model(n, first_size) == sieve_model(n, second_size),
{
    lemma_sieve_model_is_primes(n, first_size);
    lemma_sieve_model_is_primes(n, second_size);
}

} // verus!
