//! Soft bits: what the demodulator hands to the channel decoders.

use crate::bits::{bits_text, bool_bits_to_string};
use crate::viterbi::{BitCost, PathMetric};
use vstd::prelude::*;

verus! {

/// One demodulated bit with its confidence.
///
/// The demodulator measures a signed sample: positive for a one, negative for
/// a zero, the larger the surer. What decoding needs of it is what it costs to
/// read it either way, and how it and its negation are read when the
/// confidence is thrown away; a sample of exactly zero is read as a one, and
/// so is its negation.
pub struct SoftBit<M> {
    /// Whether the sample is at least zero.
    pub reads_one: bool,
    /// Whether the negated sample is at least zero.
    pub negated_reads_one: bool,
    /// What it costs to read the sample as a zero and as a one.
    pub cost: BitCost<M>,
}

impl<M: Copy> Clone for SoftBit<M> {
    fn clone(&self) -> (copy: Self)
        ensures
            copy == *self,
    {
        *self
    }
}

impl<M: Copy> Copy for SoftBit<M> {

}

impl<M: PathMetric> SoftBit<M> {
    /// The soft bit of the negated sample.
    pub open spec fn negation(self) -> Self {
        SoftBit {
            reads_one: self.negated_reads_one,
            negated_reads_one: self.reads_one,
            cost: BitCost { zero: self.cost.one, one: self.cost.zero },
        }
    }

    /// Negates the sample.
    pub fn negated(self) -> (r: Self)
        ensures
            r == self.negation(),
    {
        SoftBit {
            reads_one: self.negated_reads_one,
            negated_reads_one: self.reads_one,
            cost: BitCost { zero: self.cost.one, one: self.cost.zero },
        }
    }
}

/// Negating twice gives the sample back.
pub proof fn double_negation<M: PathMetric>(bit: SoftBit<M>)
    ensures
        bit.negation().negation() == bit,
{
}

/// The bits as they are read when confidence is thrown away.
pub open spec fn hard_view<M>(bits: Seq<SoftBit<M>>) -> Seq<bool> {
    bits.map_values(|b: SoftBit<M>| b.reads_one)
}

/// The costs of the bits.
pub open spec fn cost_view<M>(bits: Seq<SoftBit<M>>) -> Seq<BitCost<M>> {
    bits.map_values(|b: SoftBit<M>| b.cost)
}

/// Slices each soft bit to a hard one.
pub fn hard_bits<M: PathMetric>(bits: &[SoftBit<M>]) -> (r: Vec<bool>)
    ensures
        r@ == hard_view(bits@),
{
    let mut r: Vec<bool> = Vec::with_capacity(bits.len());
    for i in 0..bits.len()
        invariant
            r@ =~= hard_view(bits@.take(i as int)),
    {
        r.push(bits[i].reads_one);
    }
    assert(bits@.take(bits@.len() as int) =~= bits@);
    r
}

/// The costs of the bits, for the trellis decoder.
pub fn bit_costs<M: PathMetric>(bits: &[SoftBit<M>]) -> (r: Vec<BitCost<M>>)
    ensures
        r@ == cost_view(bits@),
{
    let mut r: Vec<BitCost<M>> = Vec::with_capacity(bits.len());
    for i in 0..bits.len()
        invariant
            r@ =~= cost_view(bits@.take(i as int)),
    {
        r.push(bits[i].cost);
    }
    assert(bits@.take(bits@.len() as int) =~= bits@);
    r
}

/// Writes the hard reading of `bits` as a string of `0` and `1`.
pub fn soft_bits_to_string<M: PathMetric>(bits: &[SoftBit<M>]) -> (text: String)
    ensures
        text@ == bits_text(hard_view(bits@)),
{
    let hard = hard_bits(bits);
    bool_bits_to_string(hard.as_slice())
}

/// The bits as a receiver sees them that may have inverted every bit and
/// swapped the two bits of every coded pair.
pub open spec fn arranged<M: PathMetric>(
    bits: Seq<SoftBit<M>>,
    invert: bool,
    swap_pairs: bool,
) -> Seq<SoftBit<M>> {
    Seq::new(
        bits.len(),
        |i: int|
            {
                let from = if swap_pairs && i < 2 * (bits.len() as int / 2) {
                    i + 1 - 2 * (i % 2)
                } else {
                    i
                };
                if invert {
                    bits[from].negation()
                } else {
                    bits[from]
                }
            },
    )
}

/// Undoes a possible inversion of the bits and swap of the coded pairs; a last
/// bit without a partner stays where it is.
pub fn arrange<M: PathMetric>(bits: &[SoftBit<M>], invert: bool, swap_pairs: bool) -> (r: Vec<
    SoftBit<M>,
>)
    ensures
        r@ == arranged(bits@, invert, swap_pairs),
{
    let n: usize = bits.len();
    let paired: usize = n - n % 2;
    let mut r: Vec<SoftBit<M>> = Vec::with_capacity(n);
    for i in 0..n
        invariant
            n == bits@.len(),
            paired == 2 * (bits@.len() as int / 2),
            r@.len() == i,
            forall|k: int|
                0 <= k < i ==> #[trigger] r@[k] == arranged(bits@, invert, swap_pairs)[k],
    {
        let from: usize = if swap_pairs && i < paired {
            if i % 2 == 0 {
                i + 1
            } else {
                i - 1
            }
        } else {
            i
        };
        let bit = bits[from];
        r.push(
            if invert {
                bit.negated()
            } else {
                bit
            },
        );
    }
    assert(r@ =~= arranged(bits@, invert, swap_pairs));
    r
}

/// Arranging the same way twice gives the bits back.
pub proof fn arranging_twice_is_identity<M: PathMetric>(
    bits: Seq<SoftBit<M>>,
    invert: bool,
    swap_pairs: bool,
)
    ensures
        arranged(arranged(bits, invert, swap_pairs), invert, swap_pairs) == bits,
{
    let once = arranged(bits, invert, swap_pairs);
    let twice = arranged(once, invert, swap_pairs);
    assert forall|i: int| 0 <= i < bits.len() implies twice[i] == bits[i] by {
        let from = if swap_pairs && i < 2 * (bits.len() as int / 2) {
            i + 1 - 2 * (i % 2)
        } else {
            i
        };
        assert(0 <= from < bits.len());
        let back = if swap_pairs && from < 2 * (bits.len() as int / 2) {
            from + 1 - 2 * (from % 2)
        } else {
            from
        };
        assert(back == i);
        double_negation(bits[i]);
    }
    assert(twice =~= bits);
}

/// Arranging takes bit `i` from its partner in the coded pair where pairs are
/// swapped, and negates it where bits are inverted; a last bit without a
/// partner stays where it is.
pub proof fn arranging_swaps_and_negates<M: PathMetric>(
    bits: Seq<SoftBit<M>>,
    invert: bool,
    swap_pairs: bool,
    i: int,
    from: int,
)
    requires
        0 <= i < bits.len(),
        swap_pairs && i % 2 == 0 && i + 1 < bits.len() ==> from == i + 1,
        swap_pairs && i % 2 == 1 ==> from == i - 1,
        !swap_pairs || (i % 2 == 0 && i + 1 == bits.len()) ==> from == i,
    ensures
        arranged(bits, invert, swap_pairs).len() == bits.len(),
        arranged(bits, invert, swap_pairs)[i].cost.zero == if invert {
            bits[from].cost.one
        } else {
            bits[from].cost.zero
        },
        arranged(bits, invert, swap_pairs)[i].cost.one == if invert {
            bits[from].cost.zero
        } else {
            bits[from].cost.one
        },
        arranged(bits, invert, swap_pairs)[i].reads_one == if invert {
            bits[from].negated_reads_one
        } else {
            bits[from].reads_one
        },
{
}

/// Each soft bit is read and costed by itself.
pub proof fn soft_bits_are_read_one_by_one<M>(bits: Seq<SoftBit<M>>, i: int)
    requires
        0 <= i < bits.len(),
    ensures
        hard_view(bits).len() == bits.len(),
        hard_view(bits)[i] == bits[i].reads_one,
        cost_view(bits).len() == bits.len(),
        cost_view(bits)[i].zero == bits[i].cost.zero,
        cost_view(bits)[i].one == bits[i].cost.one,
{
}

} // verus!
