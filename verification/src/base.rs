//! The base sieve: a sequential, odd-only sieve for the primes up to the
//! square root of the bound.

use crate::bitset::{OddBitset, MAX_BITS};
use crate::emit::emit_primes;
use crate::multiples::lemma_index_of_square;
use crate::odd::{
    lemma_odd_primes_skip_zero, lemma_primes_upto_by_odd_index, odd_count, odd_primes, odd_value,
};
use crate::primes::{as_ints, is_prime, lemma_multiple_not_prime, primes_upto};
use crate::roots::{int_sqrt, lemma_square_le, sqrt_floor, square_exceeds};
use crate::sieving::{
    lemma_sieve_done, lemma_sieve_skip, lemma_sieve_step, primes_stand, strikes, struck_cleared,
};
use vstd::prelude::*;

verus! {

/// The greatest value that the base primes of `n` reach: the square root of
/// `n`, rounded down, and at least 2.
pub open spec fn base_limit(n: int) -> int {
    if int_sqrt(n) < 2 {
        2
    } else {
        int_sqrt(n)
    }
}

/// The number of odd indices whose value is at most `r`.
pub fn odd_len(r: usize) -> (len: usize)
    ensures
        len == odd_count(r as int),
        2 * len <= r + 1,
{
    if r == 0 {
        0
    } else {
        (r - 1) / 2 + 1
    }
}

/// The run of odd indices up to a square root fits one bit vector.
proof fn lemma_root_fits(n: usize, r: usize, len: usize)
    requires
        r * r <= n,
        2 * len <= r + 1,
    ensures
        len <= MAX_BITS,
{
    assert(usize::MAX >= 0xffff_ffff);
    if r >= 8 {
        assert(8 * r <= r * r) by (nonlinear_arith)
            requires
                r >= 8,
        ;
    }
}

/// The primes up to the square root of `n`, and 2 in any case, in ascending
/// order.
pub fn base_primes(n: usize) -> (out: Vec<u64>)
    ensures
        as_ints(out@) == primes_upto(base_limit(n as int)),
{
    let r = sqrt_floor(n);
    let len = odd_len(r);
    proof {
        lemma_root_fits(n, r, len);
    }
    let mut sieve = OddBitset::new(len);
    if len > 0 {
        sieve.clear(0);
    }
    // index 0 stands for 1, which is not prime
    assert(primes_stand(sieve@, 0)) by {
        assert(!is_prime(odd_value(0)));
    }
    // no prime below 3 strikes anything
    assert(struck_cleared(sieve@, 0, odd_value(1)));
    let mut i: usize = 1;
    while i < len
        invariant
            1 <= i,
            sieve@.len() == len,
            2 * len <= r + 1,
            r * r <= n,
            len > 0 ==> !sieve@[0],
            primes_stand(sieve@, 0),
            struck_cleared(sieve@, 0, odd_value(i as int)),
        ensures
            i >= len || odd_value(i as int) * odd_value(i as int) > n,
        decreases len - i,
    {
        let p = 2 * i + 1;
        if square_exceeds(p as u64, n as u64) {
            break ;
        }
        assert(p < p * p <= n) by {
            assert((p as u64) * (p as u64) == p * p);
            assert(p * p > p) by (nonlinear_arith)
                requires
                    p >= 3,
            ;
        }
        if sieve.get(i) {
            let first = (p * p - 1) / 2;
            let ghost before = sieve@;
            sieve.clear_every(first, p);
            proof {
                lemma_index_of_square(i as int);
                assert(first == 2 * i * (i + 1));
                assert forall|k: int, q: int|
                    0 <= k < before.len() && odd_value(i as int) <= q < odd_value(i + 1)
                        && #[trigger] strikes(q, odd_value(0 + k)) implies q == p by {
                    if q == p + 1 {
                        lemma_multiple_not_prime(q, 2);
                    }
                }
                lemma_sieve_step(
                    before,
                    sieve@,
                    0,
                    p as int,
                    first as int,
                    odd_value(i as int),
                    odd_value(i + 1),
                );
            }
        } else {
            proof {
                assert(!is_prime(odd_value(0 + i)));
                assert forall|k: int, q: int|
                    0 <= k < sieve@.len() && odd_value(i as int) <= q < odd_value(
                        i + 1,
                    ) implies !#[trigger] strikes(q, odd_value(0 + k)) by {
                    if q == p + 1 {
                        lemma_multiple_not_prime(q, 2);
                    }
                }
                lemma_sieve_skip(sieve@, 0, odd_value(i as int), odd_value(i + 1));
            }
        }
        i += 1;
    }
    proof {
        // Every prime that strikes a value up to the root lies below the
        // value at which the loop ended.
        assert forall|k: int, q: int|
            0 <= k < sieve@.len() && #[trigger] strikes(q, odd_value(0 + k)) implies q < odd_value(
            i as int,
        ) by {
            let v = odd_value(0 + k);
            // q <= q * q <= v <= r, and v lies below the value at `len`
            assert(q <= q * q) by (nonlinear_arith)
                requires
                    q >= 1,
            ;
            if i < len {
                if q >= odd_value(i as int) {
                    lemma_square_le(odd_value(i as int), q);
                    lemma_square_le(v, r as int);
                    assert(v <= v * v) by (nonlinear_arith)
                        requires
                            v >= 1,
                    ;
                }
            }
        }
        lemma_sieve_done(sieve@, 0, odd_value(i as int));
    }
    let mut out: Vec<u64> = Vec::new();
    out.push(2);
    emit_primes(&sieve, 0, &mut out);
    proof {
        assert(as_ints(out@) == seq![2int] + odd_primes(0, len as int));
        if len > 0 {
            lemma_odd_primes_skip_zero(len as int);
        }
        if r >= 2 {
            lemma_primes_upto_by_odd_index(r as int);
        } else {
            lemma_primes_upto_by_odd_index(2);
        }
    }
    out
}

} // verus!
