//! Where the multiples of an odd number lie among the odd indices.

use crate::odd::odd_value;
use vstd::arithmetic::div_mod::*;
use vstd::prelude::*;

verus! {

/// An odd `p` that divides `2 * x` divides `x`.
pub proof fn lemma_odd_divides_double(p: int, x: int)
    requires
        p > 0,
        p % 2 == 1,
        (2 * x) % p == 0,
    ensures
        x % p == 0,
{
    let c = (2 * x) / p;
    let h = p / 2;
    lemma_fundamental_div_mod(2 * x, p);
    // With p = 2h + 1 and 2x = pc:  x = xp - 2xh = xp - pch = (x - ch) p.
    assert(x * p == 2 * (x * h) + x) by (nonlinear_arith)
        requires
            p == 2 * h + 1,
    ;
    assert((c * h) * p == 2 * (x * h)) by (nonlinear_arith)
        requires
            2 * x == p * c,
    ;
    assert((x - c * h) * p == x * p - (c * h) * p) by (nonlinear_arith);
    lemma_mod_multiples_basic(x - c * h, p);
}

/// Among the odd indices, the multiples of an odd `p` lie `p` indices apart:
/// if the value at `a` is a multiple of `p`, the value at `b` is one exactly
/// when `b - a` is a multiple of `p`.
pub proof fn lemma_odd_multiples_stride(p: int, a: int, b: int)
    requires
        p > 0,
        p % 2 == 1,
        odd_value(a) % p == 0,
    ensures
        odd_value(b) % p == 0 <==> (b - a) % p == 0,
{
    let ka = odd_value(a) / p;
    lemma_fundamental_div_mod(odd_value(a), p);
    if odd_value(b) % p == 0 {
        let kb = odd_value(b) / p;
        lemma_fundamental_div_mod(odd_value(b), p);
        assert(2 * (b - a) == (kb - ka) * p) by (nonlinear_arith)
            requires
                2 * a + 1 == p * ka,
                2 * b + 1 == p * kb,
        ;
        lemma_mod_multiples_basic(kb - ka, p);
        lemma_odd_divides_double(p, b - a);
    }
    if (b - a) % p == 0 {
        let k = (b - a) / p;
        lemma_fundamental_div_mod(b - a, p);
        assert(odd_value(b) == (ka + 2 * k) * p) by (nonlinear_arith)
            requires
                2 * a + 1 == p * ka,
                b - a == p * k,
        ;
        lemma_mod_multiples_basic(ka + 2 * k, p);
    }
}

/// The square of the odd value at `i` is the odd value at `2 * i * (i + 1)`.
pub proof fn lemma_index_of_square(i: int)
    requires
        i >= 0,
    ensures
        odd_value(2 * i * (i + 1)) == odd_value(i) * odd_value(i),
        odd_value(2 * i * (i + 1)) % odd_value(i) == 0,
{
    assert(2 * (2 * i * (i + 1)) + 1 == (2 * i + 1) * (2 * i + 1)) by (nonlinear_arith);
    lemma_mod_multiples_basic(odd_value(i), odd_value(i));
}

/// The modular offset: for an odd `p`, the index `start + offset` with
/// `offset = ((p * p - 1) / 2 - start) mod p` stands for a multiple of `p`,
/// and it is the first such index from `start` on.
pub proof fn lemma_offset_is_multiple(p: int, start: int, offset: int)
    requires
        p >= 1,
        p % 2 == 1,
        offset == ((p * p - 1) / 2 - start) % p,
    ensures
        0 <= offset < p,
        odd_value(start + offset) % p == 0,
        forall|j: int| 0 <= j < offset ==> #[trigger] odd_value(start + j) % p != 0,
{
    // the square of p = 2h + 1 sits at index s = (p * p - 1) / 2
    let h = p / 2;
    let s = 2 * h * (h + 1);
    lemma_index_of_square(h);
    lemma_fundamental_div_mod(s - start, p);
    let c = (s - start) / p;
    // start + offset - s == -(p * c)
    assert((start + offset) - s == (-c) * p) by (nonlinear_arith)
        requires
            s - start == p * c + offset,
    ;
    lemma_mod_multiples_basic(-c, p);
    lemma_odd_multiples_stride(p, s, start + offset);
    assert forall|j: int| 0 <= j < offset implies #[trigger] odd_value(start + j) % p != 0 by {
        // -p < j - offset < 0 is no multiple of p
        lemma_mod_add_multiples_vanish(j - offset, p);
        lemma_small_mod((p + (j - offset)) as nat, p as nat);
        lemma_odd_multiples_stride(p, start + offset, start + j);
    }
}

} // verus!
