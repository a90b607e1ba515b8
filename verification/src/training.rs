//! Training sequences and what a receiver makes of them.

use crate::distance::weight_of;
use vstd::prelude::*;

verus! {

/// The training sequences of normal bursts, by colour code.
pub const NORMAL_TRAINING_BITS: [[i8; 26]; 8] = [
    [0, 0, 1, 0, 0, 1, 0, 1, 1, 1, 0, 0, 0, 0, 1, 0, 0, 0, 1, 0, 0, 1, 0, 1, 1, 1],
    [0, 0, 1, 0, 1, 1, 0, 1, 1, 1, 0, 1, 1, 1, 1, 0, 0, 0, 1, 0, 1, 1, 0, 1, 1, 1],
    [0, 1, 0, 0, 0, 0, 1, 1, 1, 0, 1, 1, 1, 0, 1, 0, 0, 1, 0, 0, 0, 0, 1, 1, 1, 0],
    [0, 1, 0, 0, 0, 1, 1, 1, 1, 0, 1, 1, 0, 1, 0, 0, 0, 1, 0, 0, 0, 1, 1, 1, 1, 0],
    [0, 0, 0, 1, 1, 0, 1, 0, 1, 1, 1, 0, 0, 1, 0, 0, 0, 0, 0, 1, 1, 0, 1, 0, 1, 1],
    [0, 1, 0, 0, 1, 1, 1, 0, 1, 0, 1, 1, 0, 0, 0, 0, 0, 1, 0, 0, 1, 1, 1, 0, 1, 0],
    [1, 0, 1, 0, 0, 1, 1, 1, 1, 1, 0, 1, 1, 0, 0, 0, 1, 0, 1, 0, 0, 1, 1, 1, 1, 1],
    [1, 1, 1, 0, 1, 1, 1, 1, 0, 0, 0, 1, 0, 0, 1, 0, 1, 1, 1, 0, 1, 1, 1, 1, 0, 0],
];

/// The training sequence of synchronisation bursts.
pub const SCH_EXTENDED_TRAINING_BITS: [i8; 64] = [
    1, 0, 1, 1, 1, 0, 0, 1, 0, 1, 1, 0, 0, 0, 1, 0, 0, 0, 0, 0, 0, 1, 0, 0, 0, 0, 0, 0, 1, 1, 1, 1,
    0, 0, 1, 0, 1, 1, 0, 1, 0, 1, 0, 0, 0, 1, 0, 1, 0, 1, 1, 1, 0, 1, 1, 0, 0, 0, 0, 1, 1, 0, 1, 1,
];

/// A symbol of unit energy on one of the axes of the complex plane.
#[derive(Clone, Copy, PartialEq, Eq, Structural, Debug)]
pub struct AxisSymbol {
    pub re: i8,
    pub im: i8,
}

/// The unit symbol after `turns` quarter turns.
pub open spec fn quarter_turns(turns: int) -> AxisSymbol {
    if turns % 4 == 0 {
        AxisSymbol { re: 1, im: 0 }
    } else if turns % 4 == 1 {
        AxisSymbol { re: 0, im: 1 }
    } else if turns % 4 == 2 {
        AxisSymbol { re: (-1) as i8, im: 0 }
    } else {
        AxisSymbol { re: 0, im: (-1) as i8 }
    }
}

/// Symbol `i` of a sequence of bits: a quarter turn for each symbol before it,
/// and a half turn more for a one.
pub open spec fn mapped_symbol(bits: Seq<i8>, i: int) -> AxisSymbol {
    quarter_turns(
        i + if bits[i] == 0 {
            0
        } else {
            2int
        },
    )
}

/// The symbols to which a sequence of bits is mapped.
pub open spec fn mapped(bits: Seq<i8>) -> Seq<AxisSymbol> {
    Seq::new(bits.len(), |i: int| mapped_symbol(bits, i))
}

/// Turns the symbol a quarter, forwards where two bits in a row are equal and
/// backwards where they differ.
fn turned(symbol: AxisSymbol, same: bool) -> (next: AxisSymbol)
    requires
        -1 <= symbol.re <= 1,
        -1 <= symbol.im <= 1,
    ensures
        same ==> next.re == -symbol.im && next.im == symbol.re,
        !same ==> next.re == symbol.im && next.im == -symbol.re,
{
    if same {
        AxisSymbol { re: -symbol.im, im: symbol.re }
    } else {
        AxisSymbol { re: symbol.im, im: -symbol.re }
    }
}

fn map_bits(bits: &[i8]) -> (symbols: Vec<AxisSymbol>)
    requires
        bits@.len() > 0,
    ensures
        symbols@ == mapped(bits@),
{
    let mut symbols: Vec<AxisSymbol> = Vec::with_capacity(bits.len());
    let mut last: AxisSymbol = if bits[0] == 0 {
        AxisSymbol { re: 1, im: 0 }
    } else {
        AxisSymbol { re: -1, im: 0 }
    };
    symbols.push(last);
    for i in 1..bits.len()
        invariant
            bits@.len() > 0,
            last == mapped_symbol(bits@, i - 1),
            symbols@ =~= mapped(bits@).take(i as int),
    {
        last = turned(last, (bits[i] == 0) == (bits[i - 1] == 0));
        assert(last == mapped_symbol(bits@, i as int));
        symbols.push(last);
    }
    symbols
}

/// The symbols of the normal training sequence with colour code `tsc`.
pub fn normal_training_sequence(tsc: usize) -> (symbols: Vec<AxisSymbol>)
    requires
        tsc < 8,
    ensures
        symbols@ == mapped(NORMAL_TRAINING_BITS@[tsc as int]@),
{
    map_bits(NORMAL_TRAINING_BITS[tsc].as_slice())
}

/// The symbols of the training sequence of synchronisation bursts.
pub fn gmsk_training_sequence() -> (symbols: Vec<AxisSymbol>)
    ensures
        symbols@ == mapped(SCH_EXTENDED_TRAINING_BITS@),
{
    map_bits(SCH_EXTENDED_TRAINING_BITS.as_slice())
}

/// From one training symbol to the next is a quarter turn: forwards where
/// their bits are equal, backwards where they differ.
pub proof fn training_turns_by_quarters(bits: Seq<i8>, i: int)
    requires
        0 < i < bits.len(),
    ensures
        ({
            let last = mapped(bits)[i - 1];
            let next = mapped(bits)[i];
            if (bits[i] == 0) == (bits[i - 1] == 0) {
                next.re == -last.im && next.im == last.re
            } else {
                next.re == last.im && next.im == -last.re
            }
        }),
{
}

/// In how many of the first `n` places the bits from `offset` on agree with
/// the training bits.
pub open spec fn agreements(bits: Seq<bool>, offset: int, training: Seq<i8>, n: nat) -> nat
    decreases n,
{
    if n == 0 {
        0
    } else {
        agreements(bits, offset, training, (n - 1) as nat) + if bits[offset + n - 1] == (training[n
            - 1] != 0) {
            1nat
        } else {
            0nat
        }
    }
}

/// The bits of a burst whose phase steps are `steps`: a zero, and a one for
/// each forward step; all inverted where fewer than half of the training bits
/// agree.
pub open spec fn sliced(steps: Seq<bool>, offset: int, training: Seq<i8>) -> Seq<bool> {
    if steps.len() == 0 {
        seq![]
    } else {
        let bits = seq![false] + steps;
        let total = training.len();
        if bits.len() >= offset + total && agreements(bits, offset, training, total) < total / 2 {
            bits.map_values(|bit: bool| !bit)
        } else {
            bits
        }
    }
}

/// Slices a burst to bits by the directions of the phase steps between its
/// symbols, and settles the polarity by its training sequence.
pub fn hard_slice_burst_bits_with_training(
    steps: &[bool],
    training_offset: usize,
    training_bits: &[i8],
) -> (bits: Vec<bool>)
    requires
        training_offset + training_bits@.len() <= usize::MAX,
    ensures
        bits@ == sliced(steps@, training_offset as int, training_bits@),
{
    let mut bits: Vec<bool> = Vec::new();
    if steps.len() == 0 {
        return bits;
    }
    bits.push(false);
    for i in 0..steps.len()
        invariant
            bits@ =~= seq![false] + steps@.take(i as int),
    {
        bits.push(steps[i]);
    }
    assert(bits@ =~= seq![false] + steps@);
    let ghost plain = bits@;
    let total: usize = training_bits.len();
    if bits.len() >= training_offset + total {
        let mut matches: usize = 0;
        for i in 0..total
            invariant
                total == training_bits@.len(),
                bits@ == plain,
                training_offset + total <= bits@.len(),
                bits@.len() <= usize::MAX,
                matches == agreements(plain, training_offset as int, training_bits@, i as nat),
                matches <= i,
        {
            if bits[training_offset + i] == (training_bits[i] != 0) {
                matches = matches + 1;
            }
        }
        if matches < total / 2 {
            let len: usize = bits.len();
            for i in 0..len
                invariant
                    len == plain.len(),
                    bits@.len() == len,
                    forall|k: int| 0 <= k < i ==> #[trigger] bits@[k] == !plain[k],
                    forall|k: int| i <= k < len ==> #[trigger] bits@[k] == plain[k],
            {
                let flipped = !bits[i];
                bits.set(i, flipped);
            }
            assert(bits@ =~= plain.map_values(|bit: bool| !bit));
        }
    }
    bits
}

/// A training sequence starts on the real axis, to the right for a zero.
pub proof fn training_starts_on_the_real_axis(bits: Seq<i8>)
    requires
        bits.len() > 0,
    ensures
        mapped(bits).len() == bits.len(),
        bits[0] == 0 ==> mapped(bits)[0] == (AxisSymbol { re: 1, im: 0 }),
        bits[0] != 0 ==> mapped(bits)[0].re == -1 && mapped(bits)[0].im == 0,
{
}

/// The training sequences of normal bursts go round: they begin with the last
/// five, and end with the first five, of their sixteen middle bits.
pub proof fn normal_training_goes_round(tsc: int, i: int)
    requires
        0 <= tsc < 8,
        0 <= i < 5,
    ensures
        NORMAL_TRAINING_BITS@[tsc]@[i] == NORMAL_TRAINING_BITS@[tsc]@[16 + i],
        NORMAL_TRAINING_BITS@[tsc]@[21 + i] == NORMAL_TRAINING_BITS@[tsc]@[5 + i],
{
    assert(i == 0 || i == 1 || i == 2 || i == 3 || i == 4);
    assert(tsc == 0 || tsc == 1 || tsc == 2 || tsc == 3 || tsc == 4 || tsc == 5 || tsc == 6 || tsc
        == 7);
}

/// Agreements are places where a bit is what the training has there.
pub proof fn agreements_are_counted(bits: Seq<bool>, offset: int, training: Seq<i8>, n: nat)
    ensures
        agreements(bits, offset, training, n) == weight_of(
            Seq::new(n, |i: int| bits[offset + i] == (training[i] != 0)),
        ),
    decreases n,
{
    let places = Seq::new(n, |i: int| bits[offset + i] == (training[i] != 0));
    if n > 0 {
        let m = (n - 1) as nat;
        agreements_are_counted(bits, offset, training, m);
        assert(places.drop_last() =~= Seq::new(
            m,
            |i: int| bits[offset + i] == (training[i] != 0),
        ));
    }
}

/// The polarity is settled by the training sequence: the bits are the steps
/// behind a zero, or all of these inverted, and they are inverted just where
/// the burst holds the training sequence and fewer than half of its bits agree.
pub proof fn training_settles_the_polarity(
    steps: Seq<bool>,
    offset: int,
    training: Seq<i8>,
    i: int,
)
    requires
        0 <= offset,
        steps.len() > 0,
        0 <= i <= steps.len(),
    ensures
        ({
            let plain = seq![false] + steps;
            let agreed = weight_of(
                Seq::new(training.len(), |k: int| plain[offset + k] == (training[k] != 0)),
            );
            let inverted = offset + training.len() <= steps.len() + 1 && agreed < training.len()
                / 2;
            &&& sliced(steps, offset, training).len() == steps.len() + 1
            &&& sliced(steps, offset, training)[0] == inverted
            &&& i > 0 ==> sliced(steps, offset, training)[i] == (steps[i - 1] != inverted)
        }),
{
    agreements_are_counted(seq![false] + steps, offset, training, training.len());
}

/// A burst without a step has no bits.
pub proof fn no_steps_no_bits(offset: int, training: Seq<i8>)
    ensures
        sliced(seq![], offset, training).len() == 0,
{
}

} // verus!
