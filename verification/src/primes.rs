//! What a prime is, the sequence of primes in a range, and the facts about
//! divisors that a sieve rests on.

use vstd::arithmetic::div_mod::*;
use vstd::prelude::*;

verus! {

/// `v` is prime: at least 2, and no `d` with `2 <= d < v` divides it.
pub open spec fn is_prime(v: int) -> bool {
    v >= 2 && forall|d: int| 2 <= d < v ==> #[trigger] (v % d) != 0
}

/// The primes `v` with `lo <= v < hi`, in ascending order: each value of the
/// range is tried in turn and kept when it is prime.
pub open spec fn primes_between(lo: int, hi: int) -> Seq<int>
    decreases hi - lo,
{
    if hi <= lo {
        Seq::empty()
    } else if is_prime(hi - 1) {
        primes_between(lo, hi - 1).push(hi - 1)
    } else {
        primes_between(lo, hi - 1)
    }
}

/// The primes `v` with `v <= n`, in ascending order.
pub open spec fn primes_upto(n: int) -> Seq<int> {
    primes_between(2, n + 1)
}

/// The values of `s` as mathematical integers.
pub open spec fn as_ints(s: Seq<u64>) -> Seq<int> {
    s.map_values(|v: u64| v as int)
}

/// Divisibility is transitive: if `a` divides `b` and `b` divides `c`, then
/// `a` divides `c`.
pub proof fn lemma_divides_trans(a: int, b: int, c: int)
    requires
        a > 0,
        b > 0,
        b % a == 0,
        c % b == 0,
    ensures
        c % a == 0,
{
    let k = b / a;
    let m = c / b;
    lemma_fundamental_div_mod(b, a);
    lemma_fundamental_div_mod(c, b);
    assert(c == a * (k * m)) by (nonlinear_arith)
        requires
            b == a * k,
            c == b * m,
    ;
    lemma_mod_multiples_basic(k * m, a);
}

/// The least divisor of `v` that is at least `d`, given that nothing in
/// `[2, d)` divides `v`.
proof fn lemma_least_divisor_from(v: int, d: int) -> (q: int)
    requires
        2 <= d <= v,
        forall|e: int| 2 <= e < d ==> #[trigger] (v % e) != 0,
    ensures
        d <= q <= v,
        v % q == 0,
        forall|e: int| 2 <= e < q ==> #[trigger] (v % e) != 0,
    decreases v - d,
{
    if v % d == 0 {
        d
    } else {
        assert(d < v) by {
            lemma_mod_self_0(v);
        }
        lemma_least_divisor_from(v, d + 1)
    }
}

/// Every `v >= 2` has a prime divisor `q` that is `v` itself or has
/// `q * q <= v`.
pub proof fn lemma_least_prime_factor(v: int) -> (q: int)
    requires
        v >= 2,
    ensures
        is_prime(q),
        v % q == 0,
        q == v || q * q <= v,
        2 <= q <= v,
{
    let q = lemma_least_divisor_from(v, 2);
    assert forall|e: int| 2 <= e < q implies #[trigger] (q % e) != 0 by {
        if q % e == 0 {
            lemma_divides_trans(e, q, v);
        }
    }
    if q < v {
        let m = v / q;
        lemma_fundamental_div_mod(v, q);
        assert(m >= 2) by (nonlinear_arith)
            requires
                v == q * m,
                2 <= q < v,
        ;
        assert(m < v) by (nonlinear_arith)
            requires
                v == q * m,
                2 <= q,
                m >= 2,
        ;
        // m divides v as well, and nothing in [2, q) does, so q <= m
        lemma_mod_multiples_basic(q, m);
        assert(m >= q);
        assert(q * q <= v) by (nonlinear_arith)
            requires
                v == q * m,
                m >= q,
                q >= 2,
        ;
    }
    q
}

/// A composite `v >= 2` has a prime divisor whose square does not exceed it.
pub proof fn lemma_composite_has_small_factor(v: int) -> (q: int)
    requires
        v >= 2,
        !is_prime(v),
    ensures
        is_prime(q),
        v % q == 0,
        q * q <= v,
        2 <= q < v,
{
    let q = lemma_least_prime_factor(v);
    assert(q * q >= 2 * q) by (nonlinear_arith)
        requires
            q >= 2,
    ;
    q
}

/// A value with a divisor strictly between 1 and itself is not prime.
pub proof fn lemma_multiple_not_prime(v: int, d: int)
    requires
        2 <= d < v,
        v % d == 0,
    ensures
        !is_prime(v),
{
}

/// A prime other than 2 is odd.
pub proof fn lemma_prime_above_two_is_odd(p: int)
    requires
        is_prime(p),
        p != 2,
    ensures
        p % 2 == 1,
        p >= 3,
{
}

/// What `primes_between(lo, hi)` holds: primes of `[lo, hi)` only, each of
/// them, and in strictly ascending order.
pub proof fn lemma_primes_between_members(lo: int, hi: int)
    ensures
        forall|i: int|
            0 <= i < primes_between(lo, hi).len() ==> lo <= #[trigger] primes_between(lo, hi)[i]
                < hi && is_prime(primes_between(lo, hi)[i]),
        forall|v: int|
            lo <= v < hi && is_prime(v) ==> #[trigger] primes_between(lo, hi).contains(v),
        forall|i: int, j: int|
            0 <= i < j < primes_between(lo, hi).len() ==> #[trigger] primes_between(lo, hi)[i]
                < #[trigger] primes_between(lo, hi)[j],
    decreases hi - lo,
{
    let s = primes_between(lo, hi);
    if hi > lo {
        let t = primes_between(lo, hi - 1);
        lemma_primes_between_members(lo, hi - 1);
        assert forall|v: int| lo <= v < hi && is_prime(v) implies #[trigger] s.contains(v) by {
            if v < hi - 1 {
                assert(t.contains(v));
                let i = choose|i: int| 0 <= i < t.len() && t[i] == v;
                assert(s[i] == v);
            } else {
                assert(s[s.len() - 1] == v);
            }
        }
        assert forall|i: int, j: int| 0 <= i < j < s.len() implies #[trigger] s[i]
            < #[trigger] s[j] by {
            if j < t.len() {
                assert(t[i] < t[j]);
            } else {
                // the value pushed last is hi - 1, above all of t
                assert(lo <= t[i] < hi - 1);
            }
        }
    }
}

/// The primes of two adjoining ranges, one after the other, are the primes
/// of the whole range.
pub proof fn lemma_primes_between_split(lo: int, mid: int, hi: int)
    requires
        lo <= mid <= hi,
    ensures
        primes_between(lo, hi) == primes_between(lo, mid) + primes_between(mid, hi),
    decreases hi - mid,
{
    if hi > mid {
        lemma_primes_between_split(lo, mid, hi - 1);
        if is_prime(hi - 1) {
            assert(primes_between(lo, mid) + primes_between(mid, hi - 1).push(hi - 1) =~= (
            primes_between(lo, mid) + primes_between(mid, hi - 1)).push(hi - 1));
        }
    }
}

} // verus!
