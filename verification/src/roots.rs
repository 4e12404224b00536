//! Integer square roots, and squares compared without computing them.

use vstd::arithmetic::div_mod::*;
use vstd::arithmetic::mul::*;
use vstd::prelude::*;

verus! {

/// The square root of `n`, rounded down.
pub open spec fn int_sqrt(n: int) -> int
    decreases n,
{
    if n <= 0 {
        0
    } else {
        let r = int_sqrt(n - 1);
        if (r + 1) * (r + 1) <= n {
            r + 1
        } else {
            r
        }
    }
}

/// Squaring keeps the order of the numbers from 0 on.
pub proof fn lemma_square_le(a: int, b: int)
    requires
        0 <= a <= b,
    ensures
        a * a <= b * b,
{
    lemma_mul_upper_bound(a, b, a, b);
}

/// Squaring keeps the strict order of the numbers from 0 on.
pub proof fn lemma_square_lt(a: int, b: int)
    requires
        0 <= a < b,
    ensures
        a * a < b * b,
{
    lemma_square_le(a, b - 1);
    assert((b - 1) * (b - 1) < b * b) by (nonlinear_arith)
        requires
            b >= 1,
    ;
}

/// `int_sqrt(n)` is the one `r >= 0` with `r * r <= n < (r + 1) * (r + 1)`.
pub proof fn lemma_int_sqrt_bounds(n: int)
    requires
        n >= 0,
    ensures
        0 <= int_sqrt(n),
        int_sqrt(n) * int_sqrt(n) <= n < (int_sqrt(n) + 1) * (int_sqrt(n) + 1),
    decreases n,
{
    if n > 0 {
        lemma_int_sqrt_bounds(n - 1);
        let r = int_sqrt(n - 1);
        if (r + 1) * (r + 1) <= n {
            lemma_square_lt(r + 1, r + 2);
        }
    }
}

/// Any `r >= 0` with `r * r <= n < (r + 1) * (r + 1)` is `int_sqrt(n)`.
pub proof fn lemma_int_sqrt_unique(n: int, r: int)
    requires
        r >= 0,
        r * r <= n < (r + 1) * (r + 1),
    ensures
        r == int_sqrt(n),
{
    lemma_int_sqrt_bounds(n);
    let s = int_sqrt(n);
    if r < s {
        lemma_square_le(r + 1, s);
    }
    if s < r {
        lemma_square_le(s + 1, r);
    }
}

/// `usize::isqrt`: the square root of `n`, rounded down.
#[verifier::external_body]
fn isqrt(n: usize) -> (r: usize)
    ensures
        r * r <= n < (r + 1) * (r + 1),
{
    n.isqrt()
}

/// The square root of `n`, rounded down.
pub fn sqrt_floor(n: usize) -> (r: usize)
    ensures
        r == int_sqrt(n as int),
        r * r <= n,
{
    let r = isqrt(n);
    proof {
        lemma_int_sqrt_unique(n as int, r as int);
    }
    r
}

/// Whether `p * p > bound`, decided by a division so that the square is never
/// computed.
pub fn square_exceeds(p: u64, bound: u64) -> (b: bool)
    requires
        p > 0,
    ensures
        b == (p * p > bound),
{
    let q = bound / p;
    proof {
        lemma_fundamental_div_mod(bound as int, p as int);
        if p > q {
            // p >= q + 1, so p * p >= p * q + p > p * q + bound % p = bound
            lemma_mul_inequality(q + 1, p as int, p as int);
            lemma_mul_is_distributive_add_other_way(p as int, q as int, 1);
        } else {
            // p <= q, so p * p <= p * q <= bound
            lemma_mul_inequality(p as int, q as int, p as int);
        }
    }
    p > q
}

} // verus!
