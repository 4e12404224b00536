//! The merge: the base primes, then the primes of each chunk in the order of
//! the plan.

use crate::chunks::{plan_primes, ChunkDescriptor};
use crate::odd::odd_primes;
use crate::parallel::parts_match;
use crate::primes::as_ints;
use vstd::prelude::*;

verus! {

/// The vectors of `parts`, one after the other.
pub open spec fn concat_all(parts: Seq<Vec<u64>>) -> Seq<u64>
    decreases parts.len(),
{
    if parts.len() == 0 {
        Seq::empty()
    } else {
        concat_all(parts.drop_last()) + parts.last()@
    }
}

/// The values of a joined sequence are the values of its two halves, joined.
pub proof fn lemma_as_ints_add(a: Seq<u64>, b: Seq<u64>)
    ensures
        as_ints(a + b) == as_ints(a) + as_ints(b),
{
    assert(as_ints(a + b) =~= as_ints(a) + as_ints(b));
}

/// Where each part holds the primes of its chunk, the parts joined in order
/// hold the primes of the plan.
pub proof fn lemma_concat_matches_plan(parts: Seq<Vec<u64>>, plan: Seq<ChunkDescriptor>)
    requires
        parts_match(parts, plan),
    ensures
        as_ints(concat_all(parts)) == plan_primes(plan),
    decreases parts.len(),
{
    if parts.len() > 0 {
        let head = parts.drop_last();
        let plan_head = plan.drop_last();
        assert forall|i: int| 0 <= i < plan_head.len() implies as_ints(#[trigger] head[i]@)
            == odd_primes(plan_head[i].start as int, plan_head[i].end()) by {
            assert(head[i] == parts[i]);
            assert(plan_head[i] == plan[i]);
        }
        lemma_concat_matches_plan(head, plan_head);
        lemma_as_ints_add(concat_all(head), parts.last()@);
        assert(parts.last() == parts[parts.len() - 1]);
    }
}

/// `base` followed by every vector of `parts`, in the order in which `parts`
/// holds them.
pub fn merge(base: Vec<u64>, parts: &Vec<Vec<u64>>) -> (out: Vec<u64>)
    ensures
        out@ == base@ + concat_all(parts@),
{
    let ghost head = base@;
    let mut out = base;
    let mut i: usize = 0;
    proof {
        assert(parts@.take(0) =~= Seq::empty());
        assert(out@ =~= head + concat_all(parts@.take(0)));
    }
    while i < parts.len()
        invariant
            i <= parts@.len(),
            out@ == head + concat_all(parts@.take(i as int)),
        decreases parts@.len() - i,
    {
        let part = &parts[i];
        let ghost joined = out@;
        let mut j: usize = 0;
        while j < part.len()
            invariant
                j <= part@.len(),
                out@ == joined + part@.take(j as int),
            decreases part@.len() - j,
        {
            out.push(part[j]);
            proof {
                assert(part@.take(j + 1) =~= part@.take(j as int).push(part@[j as int]));
            }
            j += 1;
        }
        proof {
            assert(part@.take(j as int) =~= part@);
            let next = parts@.take(i + 1);
            assert(next.drop_last() =~= parts@.take(i as int));
            assert(next.last() == parts@[i as int]);
            assert(out@ =~= head + concat_all(next));
        }
        i += 1;
    }
    proof {
        assert(parts@.take(i as int) =~= parts@);
    }
    out
}

} // verus!
