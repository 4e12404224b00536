//! The candidate space: the odd index `i` stands for the odd value `2 * i + 1`.

use crate::bitset::true_indices;
use crate::primes::{is_prime, lemma_multiple_not_prime, primes_between, primes_upto};
use vstd::prelude::*;

verus! {

/// The odd value that index `i` stands for.
pub open spec fn odd_value(i: int) -> int {
    2 * i + 1
}

/// The primes whose odd index lies in `[lo, hi)`, in ascending order.
pub open spec fn odd_primes(lo: int, hi: int) -> Seq<int>
    decreases hi - lo,
{
    if hi <= lo {
        Seq::empty()
    } else if is_prime(odd_value(hi - 1)) {
        odd_primes(lo, hi - 1).push(odd_value(hi - 1))
    } else {
        odd_primes(lo, hi - 1)
    }
}

/// The number of odd indices whose value is at most `n`.
pub open spec fn odd_count(n: int) -> int {
    if n < 1 {
        0
    } else {
        (n - 1) / 2 + 1
    }
}

/// The primes of two adjoining runs of odd indices, one after the other, are
/// the primes of the whole run.
pub proof fn lemma_odd_primes_split(lo: int, mid: int, hi: int)
    requires
        lo <= mid <= hi,
    ensures
        odd_primes(lo, hi) == odd_primes(lo, mid) + odd_primes(mid, hi),
    decreases hi - mid,
{
    if hi > mid {
        lemma_odd_primes_split(lo, mid, hi - 1);
        if is_prime(odd_value(hi - 1)) {
            assert(odd_primes(lo, mid) + odd_primes(mid, hi - 1).push(odd_value(hi - 1)) =~= (
            odd_primes(lo, mid) + odd_primes(mid, hi - 1)).push(odd_value(hi - 1)));
        }
    }
}

/// From 3 on, the primes below `2 * k + 1` are 2 and the primes at the odd
/// indices `1 .. k`.
pub proof fn lemma_primes_by_odd_index(k: int)
    requires
        k >= 1,
    ensures
        primes_between(2, 2 * k + 1) == seq![2int] + odd_primes(1, k),
        primes_between(2, 2 * k + 2) == seq![2int] + odd_primes(1, k + 1),
    decreases k,
{
    reveal_with_fuel(primes_between, 3);
    if k > 1 {
        lemma_primes_by_odd_index(k - 1);
        // 2k is even and at least 4, so it is not prime
        lemma_multiple_not_prime(2 * k, 2);
    }
    // the value 2k + 1 sits at odd index k, and 2k + 2 is even again
    if is_prime(2 * k + 1) {
        assert(seq![2int] + odd_primes(1, k).push(odd_value(k)) =~= (seq![2int] + odd_primes(
            1,
            k,
        )).push(odd_value(k)));
    }
}

/// For `n >= 2`, the primes up to `n` are 2 followed by the primes at the odd
/// indices from 1 up to the last one whose value is at most `n`.
pub proof fn lemma_primes_upto_by_odd_index(n: int)
    requires
        n >= 2,
    ensures
        primes_upto(n) == seq![2int] + odd_primes(1, odd_count(n)),
{
    let k = odd_count(n);
    if n % 2 == 0 {
        lemma_primes_by_odd_index(k);
    } else {
        lemma_primes_by_odd_index(k - 1);
    }
}

/// Index 0 stands for 1, which is not prime, so it adds nothing.
pub proof fn lemma_odd_primes_skip_zero(hi: int)
    requires
        hi >= 1,
    ensures
        odd_primes(0, hi) == odd_primes(1, hi),
    decreases hi,
{
    reveal_with_fuel(odd_primes, 2);
    if hi > 1 {
        lemma_odd_primes_skip_zero(hi - 1);
    }
}

/// Where the flags of `s` tell exactly which of the odd values from index
/// `start` on are prime, the indices of the `true` flags, turned into values,
/// are the primes of that run.
pub proof fn lemma_true_indices_are_odd_primes(s: Seq<bool>, start: int)
    requires
        forall|i: int| 0 <= i < s.len() ==> s[i] == is_prime(odd_value(start + i)),
    ensures
        true_indices(s).len() == odd_primes(start, start + s.len()).len(),
        forall|k: int|
            0 <= k < true_indices(s).len() ==> 0 <= #[trigger] true_indices(s)[k] < s.len()
                && odd_value(start + true_indices(s)[k]) == odd_primes(start, start + s.len())[k],
    decreases s.len(),
{
    if s.len() > 0 {
        let t = s.drop_last();
        lemma_true_indices_are_odd_primes(t, start);
    }
}

} // verus!
