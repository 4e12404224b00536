//! What holds of the candidate flags while a sieve runs, and why the flags
//! that are left at the end mark exactly the primes.

use crate::bitset::on_stride;
use crate::multiples::lemma_odd_multiples_stride;
use crate::odd::odd_value;
use crate::primes::{is_prime, lemma_composite_has_small_factor, lemma_multiple_not_prime};
use vstd::arithmetic::div_mod::{lemma_mod_add_multiples_vanish, lemma_small_mod};
use vstd::prelude::*;

verus! {

/// No prime has been cleared: wherever the value at index `start + k` is
/// prime, flag `k` is set.
pub open spec fn primes_stand(s: Seq<bool>, start: int) -> bool {
    forall|k: int| 0 <= k < s.len() && is_prime(#[trigger] odd_value(start + k)) ==> s[k]
}

/// The odd prime `q` strikes `v`: it divides `v`, and its square is at most `v`.
pub open spec fn strikes(q: int, v: int) -> bool {
    is_prime(q) && q >= 3 && q * q <= v && v % q == 0
}

/// Every value struck by a prime below `bound` has been cleared.
pub open spec fn struck_cleared(s: Seq<bool>, start: int, bound: int) -> bool {
    forall|k: int, q: int|
        0 <= k < s.len() && q < bound && #[trigger] strikes(q, odd_value(start + k)) ==> !s[k]
}

/// Clearing the stride of `p` keeps every prime and settles the values that
/// `p` strikes, so the bound rises past `p`.
pub proof fn lemma_sieve_step(
    before: Seq<bool>,
    after: Seq<bool>,
    start: int,
    p: int,
    first: int,
    lo: int,
    hi: int,
)
    requires
        p >= 3,
        p % 2 == 1,
        start >= 0,
        first >= 0,
        after.len() == before.len(),
        forall|x: int|
            0 <= x < before.len() ==> #[trigger] after[x] == (before[x] && !on_stride(x, first, p)),
        odd_value(start + first) % p == 0,
        odd_value(start + first) > p,
        first < p || odd_value(start + first) <= p * p,
        primes_stand(before, start),
        struck_cleared(before, start, lo),
        forall|k: int, q: int|
            0 <= k < before.len() && lo <= q < hi && #[trigger] strikes(q, odd_value(start + k))
                ==> q == p,
    ensures
        primes_stand(after, start),
        struck_cleared(after, start, hi),
{
    assert forall|k: int| 0 <= k < after.len() && is_prime(#[trigger] odd_value(start + k))
        implies after[k] by {
        assert(before[k]);
        if on_stride(k, first, p) {
            // the value at k would be a multiple of p above p
            lemma_odd_multiples_stride(p, start + first, start + k);
            lemma_multiple_not_prime(odd_value(start + k), p);
        }
    }
    assert forall|k: int, q: int|
        0 <= k < after.len() && q < hi && #[trigger] strikes(q, odd_value(start + k)) implies !after[k] by {
        if q < lo {
            assert(!before[k]);
        } else {
            assert(q == p);
            lemma_odd_multiples_stride(p, start + first, start + k);
            assert((k - first) % p == 0);
            if first < p && k < first {
                // -p < k - first < 0 cannot be a multiple of p
                lemma_mod_add_multiples_vanish(k - first, p);
                lemma_small_mod((p + (k - first)) as nat, p as nat);
            }
            assert(on_stride(k, first, p));
        }
    }
}

/// Where `p` is not prime there is nothing to clear for it, and the bound
/// rises past `p` as it is.
pub proof fn lemma_sieve_skip(s: Seq<bool>, start: int, lo: int, hi: int)
    requires
        struck_cleared(s, start, lo),
        forall|k: int, q: int|
            0 <= k < s.len() && lo <= q < hi ==> !#[trigger] strikes(q, odd_value(start + k)),
    ensures
        struck_cleared(s, start, hi),
{
}

/// Once every prime that can strike a value of the run lies below the bound,
/// the flags that are set mark exactly the primes of the run.
pub proof fn lemma_sieve_done(s: Seq<bool>, start: int, bound: int)
    requires
        start >= 0,
        primes_stand(s, start),
        struck_cleared(s, start, bound),
        forall|k: int, q: int|
            0 <= k < s.len() && #[trigger] strikes(q, odd_value(start + k)) ==> q < bound,
        start == 0 && s.len() > 0 ==> !s[0],
    ensures
        forall|k: int| 0 <= k < s.len() ==> s[k] == is_prime(#[trigger] odd_value(start + k)),
{
    assert forall|k: int| 0 <= k < s.len() implies s[k] == is_prime(
        #[trigger] odd_value(start + k),
    ) by {
        let v = odd_value(start + k);
        if is_prime(v) {
            assert(s[k]);
        } else if v == 1 {
            assert(start == 0 && k == 0);
        } else {
            // a composite odd value has an odd prime factor that strikes it
            let q = lemma_composite_has_small_factor(v);
            assert(q != 2);
            assert(strikes(q, odd_value(start + k)));
        }
    }
}

} // verus!
