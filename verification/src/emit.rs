//! Turning the flags that a sieve leaves into the primes they stand for.

use crate::bitset::{true_indices, OddBitset};
use crate::odd::{lemma_true_indices_are_odd_primes, odd_primes, odd_value};
use crate::primes::{as_ints, is_prime};
use vstd::prelude::*;

verus! {

/// Appends to `out` the value of every candidate of `sieve` that still
/// stands, where index `k` of the sieve is odd index `start + k`.
pub fn emit_primes(sieve: &OddBitset, start: usize, out: &mut Vec<u64>)
    requires
        2 * (start + sieve@.len()) <= usize::MAX + 1,
        forall|k: int|
            0 <= k < sieve@.len() ==> sieve@[k] == is_prime(#[trigger] odd_value(start + k)),
    ensures
        as_ints(final(out)@) == as_ints(old(out)@) + odd_primes(
            start as int,
            start + sieve@.len(),
        ),
{
    let ones = sieve.ones();
    let ghost before = out@;
    let ghost found = odd_primes(start as int, start + sieve@.len());
    proof {
        lemma_true_indices_are_odd_primes(sieve@, start as int);
        assert(ones@.len() == found.len());
        assert forall|k: int| 0 <= k < ones@.len() implies 0 <= #[trigger] ones@[k] < sieve@.len()
            && odd_value(start + ones@[k]) == found[k] by {
            assert(ones@.map_values(|i: usize| i as int)[k] == ones@[k] as int);
            assert(true_indices(sieve@)[k] == ones@[k] as int);
        }
    }
    let mut k: usize = 0;
    while k < ones.len()
        invariant
            k <= ones@.len(),
            ones@.len() == found.len(),
            2 * (start + sieve@.len()) <= usize::MAX + 1,
            forall|m: int|
                0 <= m < ones@.len() ==> 0 <= #[trigger] ones@[m] < sieve@.len() && odd_value(
                    start + ones@[m],
                ) == found[m],
            out@.len() == before.len() + k,
            forall|m: int| 0 <= m < before.len() ==> out@[m] == before[m],
            forall|m: int| 0 <= m < k ==> #[trigger] out@[before.len() + m] as int == found[m],
        decreases ones@.len() - k,
    {
        let index = ones[k];
        let value = 2 * (start + index) + 1;
        out.push(value as u64);
        k += 1;
    }
    proof {
        let joined = as_ints(before) + found;
        assert(as_ints(out@).len() == joined.len());
        assert forall|j: int| 0 <= j < joined.len() implies as_ints(out@)[j] == joined[j] by {
            if j >= before.len() {
                let m = j - before.len();
                assert(out@[before.len() + m] as int == found[m]);
            }
        }
        assert(as_ints(out@) =~= joined);
    }
}

} // verus!
