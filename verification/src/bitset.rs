//! A fixed-length set of candidate flags, one per odd index, stored bit-packed
//! in a `bitvec::vec::BitVec`.

use bitvec::order::Lsb0;
use bitvec::vec::BitVec;
use vstd::arithmetic::div_mod::*;
use vstd::prelude::*;

verus! {

/// Candidate flags for a run of odd indices: `true` while the value at that
/// index has not been shown composite.
///
/// The flags live in a `BitVec`, which the verifier does not look into. What
/// the vector holds goes by the name `bits_of`, and all that is known of it
/// is what the private functions below state, each of them one call into
/// `bitvec`.
#[verifier::external_body]
pub struct OddBitset {
    bits: BitVec<usize, Lsb0>,
}

/// The flags that the bit vector inside `s` holds, first index first.
pub uninterp spec fn bits_of(s: OddBitset) -> Seq<bool>;

/// The largest number of bits that one `BitVec` can hold, `BitSlice::MAX_BITS`
/// in `bitvec`: the word range without its three highest bits.
pub const MAX_BITS: usize = usize::MAX / 8;

/// The indices at which `s` holds `true`, in ascending order.
pub open spec fn true_indices(s: Seq<bool>) -> Seq<int>
    decreases s.len(),
{
    if s.len() == 0 {
        Seq::empty()
    } else if s.last() {
        true_indices(s.drop_last()).push(s.len() - 1)
    } else {
        true_indices(s.drop_last())
    }
}

/// `BitVec::repeat`: a vector of `len` bits, each equal to `bit`. The outside
/// function panics when `len` exceeds the capacity of a bit span, which the
/// precondition excludes.
#[verifier::external_body]
fn bitvec_repeat(bit: bool, len: usize) -> (out: OddBitset)
    requires
        len <= MAX_BITS,
    ensures
        bits_of(out) == Seq::new(len as nat, |i: int| bit),
{
    OddBitset { bits: BitVec::repeat(bit, len) }
}

/// `BitSlice::len`, reached through the vector: the number of bits held.
#[verifier::external_body]
fn bitvec_len(s: &OddBitset) -> (n: usize)
    ensures
        n == bits_of(*s).len(),
{
    s.bits.len()
}

/// `BitSlice::set`, reached through the vector: writes `value` at `index` and
/// leaves every other bit as it was. The outside function panics on an index
/// out of bounds, which the precondition excludes.
#[verifier::external_body]
fn bitvec_set(s: &mut OddBitset, index: usize, value: bool)
    requires
        index < bits_of(*old(s)).len(),
    ensures
        bits_of(*final(s)) == bits_of(*old(s)).update(index as int, value),
{
    s.bits.set(index, value)
}

/// `Index<usize>` of `BitSlice`, reached through the vector: the bit at
/// `index`. The outside function panics on an index out of bounds, which the
/// precondition excludes.
#[verifier::external_body]
fn bitvec_get(s: &OddBitset, index: usize) -> (bit: bool)
    requires
        index < bits_of(*s).len(),
    ensures
        bit == bits_of(*s)[index as int],
{
    s.bits[index]
}

/// `BitSlice::iter_ones`, reached through the vector and collected: the index
/// of every bit that is set, in ascending order.
#[verifier::external_body]
fn bitvec_ones(s: &OddBitset) -> (out: Vec<usize>)
    ensures
        out@.map_values(|i: usize| i as int) == true_indices(bits_of(*s)),
{
    s.bits.iter_ones().collect()
}

/// `x` is one of `first`, `first + step`, `first + 2 * step`, ...
pub open spec fn on_stride(x: int, first: int, step: int) -> bool {
    first <= x && (x - first) % step == 0
}

/// Past a multiple of `m`, the next `m - 1` numbers are not multiples of `m`.
proof fn lemma_next_multiple(a: int, d: int, m: int)
    requires
        m > 0,
        a % m == 0,
        0 < d < m,
    ensures
        (a + d) % m != 0,
{
    lemma_fundamental_div_mod(a, m);
    lemma_mod_multiples_vanish(a / m, d, m);
    lemma_small_mod(d as nat, m as nat);
}

impl View for OddBitset {
    type V = Seq<bool>;

    open spec fn view(&self) -> Seq<bool> {
        bits_of(*self)
    }
}

impl OddBitset {
    /// A set of `len` candidates, all still standing.
    pub fn new(len: usize) -> (s: Self)
        requires
            len <= MAX_BITS,
        ensures
            s@ == Seq::new(len as nat, |i: int| true),
    {
        bitvec_repeat(true, len)
    }

    /// The number of candidates, standing or not.
    pub fn len(&self) -> (n: usize)
        ensures
            n == self@.len(),
    {
        bitvec_len(self)
    }

    /// Whether the candidate at `index` is still standing.
    pub fn get(&self, index: usize) -> (bit: bool)
        requires
            index < self@.len(),
        ensures
            bit == self@[index as int],
    {
        bitvec_get(self, index)
    }

    /// Marks the candidate at `index` composite; the others stay as they were.
    pub fn clear(&mut self, index: usize)
        requires
            index < old(self)@.len(),
        ensures
            final(self)@ == old(self)@.update(index as int, false),
    {
        bitvec_set(self, index, false)
    }

    /// The indices of the candidates still standing, in ascending order.
    pub fn ones(&self) -> (out: Vec<usize>)
        ensures
            out@.map_values(|i: usize| i as int) == true_indices(self@),
    {
        bitvec_ones(self)
    }

    /// Marks composite the candidates at `first`, `first + step`,
    /// `first + 2 * step` and so on up to the length; the others stay as they
    /// were.
    pub fn clear_every(&mut self, first: usize, step: usize)
        requires
            step > 0,
        ensures
            final(self)@.len() == old(self)@.len(),
            forall|x: int|
                0 <= x < old(self)@.len() ==> #[trigger] final(self)@[x] == (old(self)@[x]
                    && !on_stride(x, first as int, step as int)),
    {
        let len = self.len();
        let ghost before = self@;
        let mut j = first;
        proof {
            lemma_mod_multiples_basic(0, step as int);
        }
        while j < len
            invariant_except_break
                first <= j,
                (j - first) % (step as int) == 0,
                forall|x: int|
                    0 <= x < len ==> #[trigger] self@[x] == (before[x] && !(x < j && on_stride(
                        x,
                        first as int,
                        step as int,
                    ))),
            invariant
                step > 0,
                self@.len() == len,
                before.len() == len,
            ensures
                forall|x: int|
                    0 <= x < len ==> #[trigger] self@[x] == (before[x] && !on_stride(
                        x,
                        first as int,
                        step as int,
                    )),
            decreases len - j,
        {
            self.clear(j);
            proof {
                assert forall|x: int| j < x < j + step implies !#[trigger] on_stride(
                    x,
                    first as int,
                    step as int,
                ) by {
                    lemma_next_multiple(j - first, x - j, step as int);
                }
                lemma_mod_add_multiples_vanish(j - first, step as int);
            }
            if len - j <= step {
                break ;
            }
            j += step;
        }
    }
}

} // verus!
