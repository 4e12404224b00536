//! The chunk planner: the odd indices beyond the base sieve, cut into
//! contiguous chunks of a fixed size.

use crate::odd::{lemma_odd_primes_split, odd_primes};
use vstd::arithmetic::div_mod::*;
use vstd::arithmetic::mul::*;
use vstd::prelude::*;

verus! {

/// A contiguous run of odd indices: `length` of them, from `start` on.
#[derive(Clone, Copy, Debug, PartialEq, Eq, Structural)]
pub struct ChunkDescriptor {
    pub start: usize,
    pub length: usize,
}

impl ChunkDescriptor {
    /// The odd index just past the chunk.
    pub open spec fn end(self) -> int {
        self.start + self.length
    }
}

/// How many chunks of `size` indices it takes to cover `[lo, hi)`.
pub open spec fn chunk_count(lo: int, hi: int, size: int) -> int {
    if hi <= lo {
        0
    } else {
        (hi - lo + size - 1) / size
    }
}

/// The plan for `[lo, hi)` with chunks of `size` indices: chunk `i` starts at
/// `lo + i * size` and holds `size` indices, or as many as are left.
pub open spec fn chunk_plan(lo: usize, hi: usize, size: usize) -> Seq<ChunkDescriptor> {
    Seq::new(
        chunk_count(lo as int, hi as int, size as int) as nat,
        |i: int|
            ChunkDescriptor {
                start: (lo + i * size) as usize,
                length: if size <= hi - (lo + i * size) {
                    size
                } else {
                    (hi - (lo + i * size)) as usize
                },
            },
    )
}

/// The chunks of `plan` lie one after the other, none is empty, and together
/// they cover exactly `[lo, hi)`.
pub open spec fn tiles(plan: Seq<ChunkDescriptor>, lo: int, hi: int) -> bool {
    &&& plan.len() == 0 ==> hi <= lo
    &&& plan.len() > 0 ==> plan.first().start == lo && plan.last().end() == hi
    &&& forall|i: int| 0 <= i < plan.len() ==> (#[trigger] plan[i]).length >= 1
    &&& forall|i: int| 0 <= i < plan.len() - 1 ==> (#[trigger] plan[i]).end() == plan[i + 1].start
}

/// The primes of each chunk of `plan`, chunk after chunk.
pub open spec fn plan_primes(plan: Seq<ChunkDescriptor>) -> Seq<int>
    decreases plan.len(),
{
    if plan.len() == 0 {
        Seq::empty()
    } else {
        plan_primes(plan.drop_last()) + odd_primes(plan.last().start as int, plan.last().end())
    }
}

/// Without its last chunk, a plan of two chunks or more covers what lies
/// before that chunk.
proof fn lemma_tiles_drop_last(plan: Seq<ChunkDescriptor>, lo: int, hi: int)
    requires
        tiles(plan, lo, hi),
        plan.len() >= 2,
    ensures
        tiles(plan.drop_last(), lo, plan.last().start as int),
{
    let rest = plan.drop_last();
    assert(rest.first() == plan[0]);
    assert(rest.last() == plan[plan.len() - 2]);
    assert forall|i: int| 0 <= i < rest.len() implies (#[trigger] rest[i]).length >= 1 by {
        assert(rest[i] == plan[i]);
    }
    assert forall|i: int| 0 <= i < rest.len() - 1 implies (#[trigger] rest[i]).end() == rest[i
        + 1].start by {
        assert(rest[i] == plan[i]);
        assert(rest[i + 1] == plan[i + 1]);
    }
}

/// The chunks of a plan that covers `[lo, hi)` lie inside `[lo, hi)`, in
/// ascending order and without overlap.
pub proof fn lemma_tiles_starts_ascend(plan: Seq<ChunkDescriptor>, lo: int, hi: int)
    requires
        tiles(plan, lo, hi),
        plan.len() > 0,
    ensures
        lo < hi,
        forall|i: int| 0 <= i < plan.len() ==> lo <= (#[trigger] plan[i]).start < plan[i].end() <= hi,
        forall|i: int, j: int|
            0 <= i < j < plan.len() ==> (#[trigger] plan[i]).end() <= (#[trigger] plan[j]).start,
    decreases plan.len(),
{
    if plan.len() >= 2 {
        let rest = plan.drop_last();
        lemma_tiles_drop_last(plan, lo, hi);
        lemma_tiles_starts_ascend(rest, lo, plan.last().start as int);
        assert forall|i: int| 0 <= i < plan.len() implies lo <= (#[trigger] plan[i]).start
            < plan[i].end() <= hi by {
            if i < rest.len() {
                assert(rest[i] == plan[i]);
            }
        }
        assert forall|i: int, j: int| 0 <= i < j < plan.len() implies (#[trigger] plan[i]).end()
            <= (#[trigger] plan[j]).start by {
            assert(rest[i] == plan[i]);
            if j < rest.len() {
                assert(rest[j] == plan[j]);
            }
        }
    }
}

/// The primes of the chunks of a plan that covers `[lo, hi)`, taken in the
/// order of the plan, are the primes of `[lo, hi)`.
pub proof fn lemma_tiles_primes(plan: Seq<ChunkDescriptor>, lo: int, hi: int)
    requires
        tiles(plan, lo, hi),
    ensures
        plan_primes(plan) == odd_primes(lo, hi),
    decreases plan.len(),
{
    if plan.len() == 1 {
        assert(plan_primes(plan.drop_last()) =~= Seq::empty());
    } else if plan.len() >= 2 {
        let rest = plan.drop_last();
        let cut = plan.last().start as int;
        lemma_tiles_drop_last(plan, lo, hi);
        lemma_tiles_primes(rest, lo, cut);
        lemma_tiles_starts_ascend(rest, lo, cut);
        lemma_odd_primes_split(lo, cut, hi);
    }
}

/// `q` is `x / d`, given the two multiples of `d` that `x` lies between.
proof fn lemma_quotient(x: int, d: int, q: int)
    requires
        d > 0,
        q * d <= x < q * d + d,
    ensures
        x / d == q,
{
    lemma_fundamental_div_mod_converse(x, d, q, x - q * d);
}

/// The plan for `[lo, hi)` covers exactly `[lo, hi)`, whatever the chunk size,
/// and none of its chunks is longer than the chunk size.
pub proof fn lemma_chunk_plan_tiles(lo: usize, hi: usize, size: usize)
    requires
        size > 0,
    ensures
        tiles(chunk_plan(lo, hi, size), lo as int, hi as int),
        forall|i: int|
            0 <= i < chunk_plan(lo, hi, size).len() ==> (#[trigger] chunk_plan(
                lo,
                hi,
                size,
            )[i]).length <= size,
{
    let plan = chunk_plan(lo, hi, size);
    if hi > lo {
        let d = hi - lo;
        let c = chunk_count(lo as int, hi as int, size as int);
        // size * (c - 1) < d <= size * c
        lemma_fundamental_div_mod(d + size - 1, size as int);
        lemma_mul_is_distributive_sub(size as int, c, 1);
        assert(c >= 1) by {
            if c <= 0 {
                lemma_mul_inequality(c, 0, size as int);
            }
        }
        assert forall|i: int| 0 <= i < c implies (#[trigger] plan[i]).start == lo + i * size
            && plan[i].length >= 1 && plan[i].length <= size && plan[i].end() == if i < c - 1 {
            lo + (i + 1) * size
        } else {
            hi as int
        } by {
            // i * size <= size * (c - 1) < d, so chunk i starts below hi
            lemma_mul_inequality(i, c - 1, size as int);
            lemma_mul_nonnegative(i, size as int);
            if i < c - 1 {
                lemma_mul_inequality(i + 1, c - 1, size as int);
                lemma_mul_is_distributive_add_other_way(size as int, i, 1);
            }
        }
        assert(plan.first() == plan[0]);
        assert(plan.last() == plan[c - 1]);
    }
}

/// Cuts the odd indices `[lo, hi)` into chunks of `chunk_size` indices, the
/// last one shorter where the range does not divide evenly. With `lo >= hi`
/// there is nothing to cut and the plan is empty.
pub fn plan_chunks(lo: usize, hi: usize, chunk_size: usize) -> (plan: Vec<ChunkDescriptor>)
    requires
        chunk_size > 0,
    ensures
        plan@ == chunk_plan(lo, hi, chunk_size),
        tiles(plan@, lo as int, hi as int),
        forall|i: int| 0 <= i < plan@.len() ==> (#[trigger] plan@[i]).length <= chunk_size,
{
    let mut plan: Vec<ChunkDescriptor> = Vec::new();
    if lo >= hi {
        return plan;
    }
    let mut start = lo;
    proof {
        lemma_mul_basics(chunk_size as int);
    }
    while start < hi
        invariant
            chunk_size > 0,
            lo < hi,
            lo <= start <= hi,
            start < hi ==> start == lo + plan@.len() * chunk_size,
            start == hi ==> plan@.len() == chunk_count(lo as int, hi as int, chunk_size as int)
                && plan@.len() > 0 && plan@.last().end() == hi,
            plan@.len() > 0 ==> plan@.first().start == lo && plan@.last().end() == start,
            forall|i: int|
                0 <= i < plan@.len() ==> (#[trigger] plan@[i]).start == lo + i * chunk_size
                    && plan@[i].length >= 1 && plan@[i].length == if chunk_size <= hi
                    - plan@[i].start {
                    chunk_size as int
                } else {
                    hi - plan@[i].start
                },
            forall|i: int| 0 <= i < plan@.len() - 1 ==> (#[trigger] plan@[i]).end() == plan@[i + 1].start,
        decreases hi - start,
    {
        let rest = hi - start;
        let length = if chunk_size <= rest {
            chunk_size
        } else {
            rest
        };
        let ghost k = plan@.len() as int;
        let ghost earlier = plan@;
        plan.push(ChunkDescriptor { start, length });
        proof {
            assert forall|i: int| 0 <= i < plan@.len() - 1 implies (#[trigger] plan@[i]).end()
                == plan@[i + 1].start by {
                if i < k - 1 {
                    assert(plan@[i] == earlier[i]);
                    assert(plan@[i + 1] == earlier[i + 1]);
                } else {
                    assert(plan@[i] == earlier.last());
                }
            }
            // (k + 1) * size == k * size + size
            lemma_mul_is_distributive_add_other_way(chunk_size as int, k, 1);
            if start + length == hi {
                // k * size < hi - lo <= (k + 1) * size, so the count is k + 1
                lemma_quotient(hi - lo + chunk_size - 1, chunk_size as int, k + 1);
            }
        }
        start = start + length;
    }
    plan
}

} // verus!
