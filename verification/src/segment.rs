//! The segment sieve: one chunk of odd indices, sieved on its own with the
//! base primes.

use crate::bitset::{OddBitset, MAX_BITS};
use crate::chunks::ChunkDescriptor;
use crate::emit::emit_primes;
use crate::modular::sub_mod;
use crate::multiples::lemma_offset_is_multiple;
use crate::odd::{odd_primes, odd_value};
use crate::primes::{as_ints, is_prime, lemma_prime_above_two_is_odd};
use crate::roots::{lemma_square_le, square_exceeds};
use crate::sieving::{
    lemma_sieve_done, lemma_sieve_skip, lemma_sieve_step, primes_stand, strikes, struck_cleared,
};
use vstd::prelude::*;

verus! {

/// The value at the first index of `chunk`.
pub open spec fn first_value(chunk: ChunkDescriptor) -> int {
    odd_value(chunk.start as int)
}

/// The value at the last index of a chunk that is not empty.
pub open spec fn last_value(chunk: ChunkDescriptor) -> int {
    odd_value(chunk.end() - 1)
}

/// `base` serves to sieve `chunk`: it is an ascending list of primes that
/// starts with 2 and holds every prime whose square is at most the last value
/// of the chunk, and each of those primes lies below the chunk.
pub open spec fn covers(base: Seq<u64>, chunk: ChunkDescriptor) -> bool {
    &&& base.len() >= 1
    &&& base[0] == 2
    &&& forall|i: int, j: int| 0 <= i < j < base.len() ==> base[i] < base[j]
    &&& forall|i: int| 0 <= i < base.len() ==> is_prime(#[trigger] base[i] as int)
    &&& forall|q: int|
        #[trigger] is_prime(q) && q * q <= last_value(chunk) ==> q < first_value(chunk)
            && as_ints(base).contains(q)
}

/// What `sieve_chunk` asks of its input: the chunk lies past index 0, fits
/// one set of flags, its values fit the machine word, and `base` serves to
/// sieve it.
pub open spec fn chunk_ready(chunk: ChunkDescriptor, base: Seq<u64>) -> bool {
    &&& chunk.start >= 1
    &&& chunk.length <= MAX_BITS
    &&& 2 * chunk.end() <= usize::MAX + 1
    &&& chunk.length > 0 ==> covers(base, chunk)
}

/// The prime up to which the chunk has been sieved once the base primes
/// before index `k` are done: the next base prime, or past the last value
/// when none is left.
pub open spec fn sieved_below(base: Seq<u64>, k: int, last: int) -> int {
    if k < base.len() {
        base[k] as int
    } else {
        last + 1
    }
}

/// A prime that strikes a value of the chunk is one of the base primes after
/// the first.
proof fn lemma_striker_in_base(base: Seq<u64>, chunk: ChunkDescriptor, j: int, q: int) -> (t: int)
    requires
        covers(base, chunk),
        0 <= j < chunk.length,
        strikes(q, odd_value(chunk.start + j)),
    ensures
        1 <= t < base.len(),
        base[t] == q,
        q < first_value(chunk),
{
    assert(q * q <= last_value(chunk));
    assert(is_prime(q));
    assert(as_ints(base).contains(q));
    let t = choose|t: int| 0 <= t < as_ints(base).len() && as_ints(base)[t] == q;
    assert(as_ints(base)[t] == base[t] as int);
    t
}

/// Between one base prime and the next, no prime strikes a value of the
/// chunk but the first of the two.
proof fn lemma_only_striker(base: Seq<u64>, chunk: ChunkDescriptor, k: int, last: int)
    requires
        covers(base, chunk),
        1 <= k < base.len(),
        last == last_value(chunk),
    ensures
        forall|j: int, q: int|
            0 <= j < chunk.length && sieved_below(base, k, last) <= q < sieved_below(
                base,
                k + 1,
                last,
            ) && #[trigger] strikes(q, odd_value(chunk.start + j)) ==> q == base[k],
{
    assert forall|j: int, q: int|
        0 <= j < chunk.length && sieved_below(base, k, last) <= q < sieved_below(base, k + 1, last)
            && #[trigger] strikes(q, odd_value(chunk.start + j)) implies q == base[k] by {
        let t = lemma_striker_in_base(base, chunk, j, q);
        if t < k {
            assert(base[t] < base[k]);
        }
        if t > k {
            assert(k + 1 < base.len());
            if t > k + 1 {
                assert(base[k + 1] < base[t]);
            }
        }
    }
}

/// The primes whose odd index lies in `chunk`, in ascending order, found by
/// clearing the odd multiples of each base prime from a fresh set of flags.
pub fn sieve_chunk(chunk: ChunkDescriptor, base: &Vec<u64>) -> (out: Vec<u64>)
    requires
        chunk_ready(chunk, base@),
    ensures
        as_ints(out@) == odd_primes(chunk.start as int, chunk.end()),
{
    let mut out: Vec<u64> = Vec::new();
    if chunk.length == 0 {
        assert(as_ints(out@) =~= odd_primes(chunk.start as int, chunk.end()));
        return out;
    }
    let start = chunk.start;
    let mut sieve = OddBitset::new(chunk.length);
    let last: u64 = (2 * (start + chunk.length - 1) + 1) as u64;
    proof {
        // Before any clearing the chunk is sieved below the second base
        // prime: the one prime under it is 2, which strikes no odd value.
        assert(struck_cleared(sieve@, start as int, 3));
        assert forall|j: int, q: int|
            0 <= j < sieve@.len() && 3 <= q < sieved_below(
                base@,
                1,
                last as int,
            ) implies !#[trigger] strikes(q, odd_value(start + j)) by {
            if strikes(q, odd_value(start + j)) {
                let t = lemma_striker_in_base(base@, chunk, j, q);
                if t > 1 {
                    assert(base@[1] < base@[t]);
                }
            }
        }
        lemma_sieve_skip(sieve@, start as int, 3, sieved_below(base@, 1, last as int));
    }
    let mut k: usize = 1;
    while k < base.len()
        invariant
            1 <= k <= base@.len(),
            start == chunk.start,
            start >= 1,
            chunk.length >= 1,
            2 * chunk.end() <= usize::MAX + 1,
            last == last_value(chunk),
            sieve@.len() == chunk.length,
            covers(base@, chunk),
            primes_stand(sieve@, start as int),
            struck_cleared(sieve@, start as int, sieved_below(base@, k as int, last as int)),
        ensures
            k >= base@.len() || base@[k as int] * base@[k as int] > last,
        decreases base@.len() - k,
    {
        let p = base[k];
        proof {
            // p is a prime above 2, so it is odd
            assert(is_prime(base@[k as int] as int));
            assert(base@[0] < base@[k as int]);
            lemma_prime_above_two_is_odd(p as int);
        }
        if square_exceeds(p, last) {
            break ;
        }
        assert(p < p * p) by (nonlinear_arith)
            requires
                p >= 3,
        ;
        let offset = sub_mod((p * p - 1) / 2, start as u64, p);
        let ghost before = sieve@;
        proof {
            lemma_offset_is_multiple(p as int, start as int, offset as int);
            assert(p < first_value(chunk));
        }
        sieve.clear_every(offset as usize, p as usize);
        proof {
            lemma_only_striker(base@, chunk, k as int, last as int);
            lemma_sieve_step(
                before,
                sieve@,
                start as int,
                p as int,
                offset as int,
                sieved_below(base@, k as int, last as int),
                sieved_below(base@, k + 1, last as int),
            );
        }
        k += 1;
    }
    proof {
        // Every prime that strikes a value of the chunk has its square at
        // most `last`, so it lies below the bound that the loop ended with.
        let bound = sieved_below(base@, k as int, last as int);
        assert forall|j: int, q: int|
            0 <= j < sieve@.len() && #[trigger] strikes(q, odd_value(start + j)) implies q
            < bound by {
            assert(q <= q * q) by (nonlinear_arith)
                requires
                    q >= 1,
            ;
            if k < base@.len() {
                if q >= bound {
                    lemma_square_le(bound, q);
                }
            }
        }
        lemma_sieve_done(sieve@, start as int, bound);
    }
    emit_primes(&sieve, start, &mut out);
    proof {
        assert(as_ints(Seq::<u64>::empty()) + odd_primes(start as int, chunk.end()) =~= odd_primes(
            start as int,
            chunk.end(),
        ));
    }
    out
}

} // verus!
