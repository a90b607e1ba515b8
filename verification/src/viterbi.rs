//! Viterbi decoding of the GSM rate-1/2, constraint-length-5 convolutional code.
//!
//! The trellis has sixteen states: the last four message bits, newest in the
//! least significant position. The decoder is written once over any
//! [`PathMetric`], so that hard decisions (mismatch counts) and soft decisions
//! (whatever the demodulator measures confidence in) share one proof.

use vstd::prelude::*;

verus! {

/// A cost accumulated along a trellis path.
pub trait PathMetric: Copy + Sized {
    /// The cost of the empty path.
    spec fn zero_value() -> Self;

    /// The cost at which a path counts as unreachable.
    spec fn limit_value() -> Self;

    /// The cost of a path of cost `self` extended by a step of cost `step`.
    spec fn sum(self, step: Self) -> Self;

    /// Whether `self` is strictly cheaper than `other`.
    spec fn precedes(self, other: Self) -> bool;

    /// The total cost `self` spread over `coded_bits` coded bits.
    spec fn share(self, coded_bits: usize) -> Self;

    /// Whether `self` is the cost of some path: other values of the type can
    /// only come from samples that cannot be read.
    spec fn is_cost(self) -> bool;

    fn zero() -> (m: Self)
        ensures
            m == Self::zero_value(),
    ;

    fn limit() -> (m: Self)
        ensures
            m == Self::limit_value(),
    ;

    fn plus(self, step: Self) -> (m: Self)
        ensures
            m == self.sum(step),
    ;

    fn is_below(self, other: Self) -> (b: bool)
        ensures
            b == self.precedes(other),
    ;

    fn per_bit(self, coded_bits: usize) -> (m: Self)
        ensures
            m == self.share(coded_bits),
    ;
}

/// Mismatch counts: the metric of hard-decision decoding.
impl PathMetric for u32 {
    open spec fn zero_value() -> u32 {
        0
    }

    open spec fn limit_value() -> u32 {
        1_000_000
    }

    open spec fn sum(self, step: u32) -> u32 {
        if self + step > u32::MAX {
            u32::MAX
        } else {
            (self + step) as u32
        }
    }

    open spec fn precedes(self, other: u32) -> bool {
        self < other
    }

    open spec fn share(self, coded_bits: usize) -> u32 {
        if coded_bits == 0 {
            self
        } else {
            (self as nat / coded_bits as nat) as u32
        }
    }

    open spec fn is_cost(self) -> bool {
        true
    }

    fn zero() -> (m: u32) {
        0
    }

    fn limit() -> (m: u32) {
        1_000_000
    }

    fn plus(self, step: u32) -> (m: u32) {
        self.saturating_add(step)
    }

    fn is_below(self, other: u32) -> (b: bool) {
        self < other
    }

    fn per_bit(self, coded_bits: usize) -> (m: u32) {
        if coded_bits == 0 {
            self
        } else {
            let n: u64 = coded_bits as u64;
            let q: u64 = self as u64 / n;
            assert(q <= self) by (nonlinear_arith)
                requires
                    q == self as u64 / n,
                    n > 0,
            ;
            q as u32
        }
    }
}

/// What it costs to read one coded bit as a zero and as a one.
pub struct BitCost<M> {
    pub zero: M,
    pub one: M,
}

impl<M: Copy> Clone for BitCost<M> {
    fn clone(&self) -> (copy: Self)
        ensures
            copy == *self,
    {
        *self
    }
}

impl<M: Copy> Copy for BitCost<M> {

}

impl<M: PathMetric> BitCost<M> {
    /// The cost of reading the bit as `expected`.
    pub open spec fn of(self, expected: bool) -> M {
        if expected {
            self.one
        } else {
            self.zero
        }
    }

    fn cost(&self, expected: bool) -> (m: M)
        ensures
            m == self.of(expected),
    {
        if expected {
            self.one
        } else {
            self.zero
        }
    }
}


/// The message bit `age` steps back, as the trellis state `state` remembers it.
pub open spec fn delayed(state: int, age: int) -> bool {
    if age == 1 {
        state % 2 == 1
    } else if age == 3 {
        (state / 4) % 2 == 1
    } else {
        (state / 8) % 2 == 1
    }
}

/// The two coded bits for message bit `bit` in `state`: generators
/// `1 + D3 + D4` and `1 + D + D3 + D4`.
pub open spec fn coded_pair(state: int, bit: bool) -> (bool, bool) {
    let first = (bit != delayed(state, 3)) != delayed(state, 4);
    (first, first != delayed(state, 1))
}

/// The state after message bit `bit` in `state`.
pub open spec fn next_state(state: int, bit: bool) -> int {
    (2 * state) % 16 + if bit {
        1int
    } else {
        0
    }
}

/// The state after the whole message `word`, from the all-zero state.
pub open spec fn state_after(word: Seq<bool>) -> int
    decreases word.len(),
{
    if word.len() == 0 {
        0
    } else {
        next_state(state_after(word.drop_last()), word.last())
    }
}

/// The coded bits of the message `word`, from the all-zero state.
pub open spec fn encode(word: Seq<bool>) -> Seq<bool>
    decreases word.len(),
{
    if word.len() == 0 {
        seq![]
    } else {
        let pair = coded_pair(state_after(word.drop_last()), word.last());
        encode(word.drop_last()).push(pair.0).push(pair.1)
    }
}

/// The coded bits emitted in `state` for `bit`.
pub fn gsm_conv_outputs(state: usize, bit: bool) -> (outputs: (bool, bool))
    ensures
        outputs == coded_pair(state as int, bit),
{
    let d1: usize = state & 1;
    let d3: usize = (state >> 2) & 1;
    let d4: usize = (state >> 3) & 1;
    assert(state & 1 == state % 2) by (bit_vector);
    assert((state >> 2) & 1 == (state / 4) % 2) by (bit_vector);
    assert((state >> 3) & 1 == (state / 8) % 2) by (bit_vector);
    let first = (bit != (d3 != 0)) != (d4 != 0);
    (first, first != (d1 != 0))
}

/// The cost of the trellis branch taken at `step` out of `state` on `bit`.
pub open spec fn branch_cost<M: PathMetric>(
    costs: Seq<BitCost<M>>,
    step: int,
    state: int,
    bit: bool,
) -> M {
    let pair = coded_pair(state, bit);
    costs[2 * step].of(pair.0).sum(costs[2 * step + 1].of(pair.1))
}

/// The cost of the path that spells `word`, step by step from the all-zero state.
pub open spec fn path_cost<M: PathMetric>(costs: Seq<BitCost<M>>, word: Seq<bool>) -> M
    decreases word.len(),
{
    if word.len() == 0 {
        M::zero_value()
    } else {
        let prefix = word.drop_last();
        path_cost(costs, prefix).sum(
            branch_cost(costs, prefix.len() as int, state_after(prefix), word.last()),
        )
    }
}

/// The cost of entering `state` at step `step + 1` from `from`, whose survivor
/// cost is `cost`; `best` is what is known so far.
pub open spec fn contend<M: PathMetric>(
    costs: Seq<BitCost<M>>,
    step: int,
    from: int,
    cost: M,
    state: int,
    best: M,
) -> bool {
    &&& cost.precedes(M::limit_value())
    &&& cost.sum(branch_cost(costs, step, from, state % 2 == 1)).precedes(best)
}

/// The cost of the survivor path into `state` after `steps` steps.
pub open spec fn survivor_cost<M: PathMetric>(
    costs: Seq<BitCost<M>>,
    steps: nat,
    state: int,
) -> M
    decreases steps,
{
    if steps == 0 {
        if state == 0 {
            M::zero_value()
        } else {
            M::limit_value()
        }
    } else {
        let step = (steps - 1) as nat;
        let low = state / 2;
        let high = state / 2 + 8;
        let bit = state % 2 == 1;
        let low_cost = survivor_cost(costs, step, low);
        let high_cost = survivor_cost(costs, step, high);
        let first = if contend(costs, step as int, low, low_cost, state, M::limit_value()) {
            low_cost.sum(branch_cost(costs, step as int, low, bit))
        } else {
            M::limit_value()
        };
        if contend(costs, step as int, high, high_cost, state, first) {
            high_cost.sum(branch_cost(costs, step as int, high, bit))
        } else {
            first
        }
    }
}

/// Where the survivor path into `state` after `steps` steps came from, and on
/// which message bit; on equal costs the lower state wins.
pub open spec fn survivor_link<M: PathMetric>(
    costs: Seq<BitCost<M>>,
    steps: nat,
    state: int,
) -> (int, bool)
    recommends
        steps > 0,
{
    let step = (steps - 1) as nat;
    let low = state / 2;
    let high = state / 2 + 8;
    let bit = state % 2 == 1;
    let low_cost = survivor_cost(costs, step, low);
    let high_cost = survivor_cost(costs, step, high);
    let low_wins = contend(costs, step as int, low, low_cost, state, M::limit_value());
    let first = if low_wins {
        low_cost.sum(branch_cost(costs, step as int, low, bit))
    } else {
        M::limit_value()
    };
    if contend(costs, step as int, high, high_cost, state, first) {
        (high, bit)
    } else if low_wins {
        (low, bit)
    } else {
        (0, false)
    }
}

/// The message bits along the survivor path into `state` after `steps` steps.
pub open spec fn survivor<M: PathMetric>(
    costs: Seq<BitCost<M>>,
    steps: nat,
    state: int,
) -> Seq<bool>
    decreases steps,
{
    if steps == 0 {
        seq![]
    } else {
        let link = survivor_link(costs, steps, state);
        survivor(costs, (steps - 1) as nat, link.0).push(link.1)
    }
}

/// The first of the states `0..=upto` whose survivor is cheapest after `steps` steps.
pub open spec fn cheapest_state<M: PathMetric>(
    costs: Seq<BitCost<M>>,
    steps: nat,
    upto: nat,
) -> int
    decreases upto,
{
    if upto == 0 {
        0
    } else {
        let best = cheapest_state(costs, steps, (upto - 1) as nat);
        if survivor_cost(costs, steps, upto as int).precedes(survivor_cost(costs, steps, best)) {
            upto as int
        } else {
            best
        }
    }
}

/// The state at which traceback starts: the all-zero state that the tail bits
/// lead to, or the cheapest one where no path reaches it.
pub open spec fn final_state<M: PathMetric>(costs: Seq<BitCost<M>>, steps: nat) -> int {
    if survivor_cost(costs, steps, 0).precedes(M::limit_value()) {
        0
    } else {
        cheapest_state(costs, steps, 15)
    }
}

/// What decoding `steps` message bits yields: the survivor into the final
/// state with its total cost, unless coded bits are missing or no path is left.
pub open spec fn decoded<M: PathMetric>(costs: Seq<BitCost<M>>, steps: nat) -> Option<
    (Seq<bool>, M),
> {
    let end = final_state(costs, steps);
    let total = survivor_cost(costs, steps, end);
    if costs.len() < 2 * steps || !total.precedes(M::limit_value()) {
        None
    } else {
        Some((survivor(costs, steps, end), total))
    }
}

/// One trellis step: the survivor costs after it, and the links behind them.
fn advance<M: PathMetric>(
    coded: &[BitCost<M>],
    step: usize,
    metrics: &[M; 16],
) -> (r: ([M; 16], [(usize, bool); 16]))
    requires
        2 * step + 1 < coded@.len(),
        forall|s: int|
            0 <= s < 16 ==> #[trigger] metrics@[s] == survivor_cost(coded@, step as nat, s),
    ensures
        forall|s: int|
            0 <= s < 16 ==> #[trigger] r.0@[s] == survivor_cost(coded@, (step + 1) as nat, s),
        forall|s: int|
            0 <= s < 16 ==> {
                let link = survivor_link(coded@, (step + 1) as nat, s);
                (#[trigger] r.1@[s]).0 == link.0 && r.1@[s].1 == link.1 && r.1@[s].0 < 16
            },
{
    let mut next: [M; 16] = [M::limit();16];
    let mut links: [(usize, bool); 16] = [(0usize, false);16];
    assert(2 * step + 1 < coded.len());
    let first_bit = coded[2 * step];
    let second_bit = coded[2 * step + 1];
    for s in 0usize..16
        invariant
            2 * step + 1 < coded@.len(),
            first_bit == coded@[2 * step as int],
            second_bit == coded@[2 * step + 1],
            forall|t: int|
                0 <= t < 16 ==> #[trigger] metrics@[t] == survivor_cost(coded@, step as nat, t),
            forall|t: int|
                0 <= t < s ==> #[trigger] next@[t] == survivor_cost(
                    coded@,
                    (step + 1) as nat,
                    t,
                ),
            forall|t: int|
                0 <= t < s ==> {
                    let link = survivor_link(coded@, (step + 1) as nat, t);
                    (#[trigger] links@[t]).0 == link.0 && links@[t].1 == link.1 && links@[t].0 < 16
                },
    {
        let low: usize = s / 2;
        let high: usize = s / 2 + 8;
        let bit = s % 2 == 1;
        let mut best = M::limit();
        let mut link: (usize, bool) = (0, false);
        if metrics[low].is_below(M::limit()) {
            let pair = gsm_conv_outputs(low, bit);
            let branch = first_bit.cost(pair.0).plus(second_bit.cost(pair.1));
            let candidate = metrics[low].plus(branch);
            if candidate.is_below(best) {
                best = candidate;
                link = (low, bit);
            }
        }
        if metrics[high].is_below(M::limit()) {
            let pair = gsm_conv_outputs(high, bit);
            let branch = first_bit.cost(pair.0).plus(second_bit.cost(pair.1));
            let candidate = metrics[high].plus(branch);
            if candidate.is_below(best) {
                best = candidate;
                link = (high, bit);
            }
        }
        next[s] = best;
        links[s] = link;
    }
    (next, links)
}

/// The cheapest path through the trellis for the given coded-bit costs.
pub fn decode_trellis<M: PathMetric, const OUT: usize>(coded: &[BitCost<M>]) -> (r: Option<
    ([bool; OUT], M),
>)
    requires
        2 * OUT <= usize::MAX,
    ensures
        match r {
            Some((bits, total)) => decoded(coded@, OUT as nat) == Some((bits@, total)),
            None => decoded(coded@, OUT as nat) is None,
        },
{
    if coded.len() < OUT * 2 {
        return None;
    }
    let mut metrics: [M; 16] = [M::limit();16];
    metrics[0] = M::zero();
    let mut links: Vec<[(usize, bool); 16]> = Vec::with_capacity(OUT);
    for step in 0..OUT
        invariant
            2 * OUT <= coded@.len(),
            links@.len() == step,
            forall|s: int|
                0 <= s < 16 ==> #[trigger] metrics@[s] == survivor_cost(coded@, step as nat, s),
            forall|k: int, s: int|
                0 <= k < step && 0 <= s < 16 ==> {
                    let link = survivor_link(coded@, (k + 1) as nat, s);
                    (#[trigger] links@[k]@[s]).0 == link.0 && links@[k]@[s].1 == link.1
                        && links@[k]@[s].0 < 16
                },
    {
        let (next, link) = advance(coded, step, &metrics);
        metrics = next;
        links.push(link);
    }
    let mut state: usize = 0;
    if !metrics[0].is_below(M::limit()) {
        for s in 1usize..16
            invariant
                state < 16,
                forall|t: int|
                    0 <= t < 16 ==> #[trigger] metrics@[t] == survivor_cost(coded@, OUT as nat, t),
                state == cheapest_state(coded@, OUT as nat, (s - 1) as nat),
        {
            if metrics[s].is_below(metrics[state]) {
                state = s;
            }
        }
    }
    let ghost end = state as int;
    assert(end == final_state(coded@, OUT as nat));
    let total = metrics[state];
    if !total.is_below(M::limit()) {
        return None;
    }
    let mut bits: [bool; OUT] = [false;OUT];
    let mut left: usize = OUT;
    assert(survivor(coded@, OUT as nat, end) =~= survivor(coded@, left as nat, state as int)
        + bits@.skip(left as int));
    while left > 0
        invariant
            left <= OUT,
            state < 16,
            links@.len() == OUT,
            forall|k: int, s: int|
                0 <= k < OUT && 0 <= s < 16 ==> {
                    let link = survivor_link(coded@, (k + 1) as nat, s);
                    (#[trigger] links@[k]@[s]).0 == link.0 && links@[k]@[s].1 == link.1
                        && links@[k]@[s].0 < 16
                },
            survivor(coded@, OUT as nat, end) =~= survivor(coded@, left as nat, state as int)
                + bits@.skip(left as int),
        decreases left,
    {
        let ghost before = bits@;
        let link = links[left - 1][state];
        assert(links@[left - 1]@[state as int] == link);
        bits[left - 1] = link.1;
        assert(bits@.skip(left - 1) =~= seq![link.1] + before.skip(left as int));
        left = left - 1;
        state = link.0;
    }
    assert(bits@.skip(0) =~= bits@);
    Some((bits, total))
}


/// The costs of reading a received hard bit: one for a mismatch.
pub open spec fn hard_cost(received: bool) -> BitCost<u32> {
    BitCost {
        zero: if received {
            1
        } else {
            0
        },
        one: if received {
            0
        } else {
            1
        },
    }
}

/// The costs of reading each of the received hard bits.
pub open spec fn hard_costs(received: Seq<bool>) -> Seq<BitCost<u32>> {
    received.map_values(|b: bool| hard_cost(b))
}

/// Soft-decision decoding of `OUT` message bits from the costs of the coded
/// bits: the message along the cheapest path, with its cost per coded bit.
pub fn soft_viterbi_decode_gsm_k5_len<M: PathMetric, const OUT: usize>(
    coded: &[BitCost<M>],
) -> (r: Option<([bool; OUT], M)>)
    requires
        2 * OUT <= usize::MAX,
    ensures
        match (r, decoded(coded@, OUT as nat)) {
            (Some((bits, metric)), Some((word, total))) => bits@ == word && metric == total.share(
                (2 * OUT) as usize,
            ),
            (None, None) => true,
            _ => false,
        },
{
    match decode_trellis::<M, OUT>(coded) {
        Some((bits, total)) => Some((bits, total.per_bit(OUT * 2))),
        None => None,
    }
}

/// Hard-decision decoding of `OUT` message bits: the message along the path
/// with the fewest mismatches, with their number.
pub fn viterbi_decode_gsm_k5_len<const OUT: usize>(coded: &[bool]) -> (r: Option<
    ([bool; OUT], u32),
>)
    requires
        2 * OUT <= usize::MAX,
    ensures
        match r {
            Some((bits, mismatches)) => decoded(hard_costs(coded@), OUT as nat) == Some(
                (bits@, mismatches),
            ),
            None => decoded(hard_costs(coded@), OUT as nat) is None,
        },
{
    let mut costs: Vec<BitCost<u32>> = Vec::with_capacity(coded.len());
    for i in 0..coded.len()
        invariant
            costs@ =~= hard_costs(coded@.take(i as int)),
    {
        let received = coded[i];
        costs.push(
            BitCost {
                zero: if received {
                    1
                } else {
                    0
                },
                one: if received {
                    0
                } else {
                    1
                },
            },
        );
    }
    assert(coded@.take(coded@.len() as int) =~= coded@);
    decode_trellis::<u32, OUT>(costs.as_slice())
}

/// Hard-decision decoding of one synchronisation burst.
pub fn viterbi_decode_gsm_k5(coded: &[bool; 78]) -> (r: Option<([bool; 39], u32)>)
    ensures
        match r {
            Some((bits, mismatches)) => decoded(hard_costs(coded@), 39) == Some(
                (bits@, mismatches),
            ),
            None => decoded(hard_costs(coded@), 39) is None,
        },
{
    viterbi_decode_gsm_k5_len::<39>(coded.as_slice())
}

/// Whether the metric `M` orders costs consistently: the empty path is the
/// cheapest, sums and shares of costs are costs, `precedes` is a strict weak
/// order of them, and neither adding a step, nor adding the same to two costs,
/// nor sharing two costs among as many bits turns the order around.
pub open spec fn consistent<M: PathMetric>() -> bool {
    &&& M::zero_value().is_cost()
    &&& M::limit_value().is_cost()
    &&& M::zero_value().precedes(M::limit_value())
    &&& M::zero_value().sum(M::zero_value()) == M::zero_value()
    &&& forall|a: M| a.is_cost() ==> !#[trigger] a.precedes(M::zero_value())
    &&& forall|a: M, b: M|
        a.is_cost() && b.is_cost() && #[trigger] a.precedes(b) ==> !b.precedes(a)
    &&& forall|a: M, b: M, c: M|
        a.is_cost() && b.is_cost() && c.is_cost() && !(#[trigger] a.precedes(b)) && !(
        #[trigger] b.precedes(c)) ==> !a.precedes(c)
    &&& forall|a: M, c: M|
        a.is_cost() && c.is_cost() ==> (#[trigger] a.sum(c)).is_cost() && !a.sum(c).precedes(a)
            && !a.sum(c).precedes(c)
    &&& forall|a: M, b: M, c: M|
        #![trigger a.sum(c), b.sum(c)]
        a.is_cost() && b.is_cost() && c.is_cost() && !a.precedes(b) ==> !a.sum(c).precedes(
            b.sum(c),
        )
    &&& forall|a: M, b: M, c: M|
        #![trigger c.sum(a), c.sum(b)]
        a.is_cost() && b.is_cost() && c.is_cost() && !a.precedes(b) ==> !c.sum(a).precedes(
            c.sum(b),
        )
    &&& forall|a: M, n: usize| a.is_cost() && n > 0 ==> (#[trigger] a.share(n)).is_cost()
    &&& forall|a: M, b: M, n: usize|
        #![trigger a.share(n), b.share(n)]
        a.is_cost() && b.is_cost() && n > 0 && !a.precedes(b) ==> !a.share(n).precedes(
            b.share(n),
        )
    &&& forall|n: usize| n > 0 ==> #[trigger] M::zero_value().share(n) == M::zero_value()
}

/// Mismatch counts are a consistent metric.
pub proof fn mismatch_count_is_consistent()
    ensures
        consistent::<u32>(),
{
    assert forall|a: u32, b: u32, n: usize|
        #![trigger a.share(n), b.share(n)]
        n > 0 && !a.precedes(b) implies !a.share(n).precedes(b.share(n)) by {
        share_of_count(a, n);
        share_of_count(b, n);
        vstd::arithmetic::div_mod::lemma_div_is_ordered(b as int, a as int, n as int);
    }
    assert forall|n: usize| n > 0 implies #[trigger] 0u32.share(n) == 0u32 by {
        share_of_count(0, n);
        vstd::arithmetic::div_mod::lemma_div_basics(n as int);
    }
}

proof fn share_of_count(a: u32, n: usize)
    requires
        n > 0,
    ensures
        a.share(n) == a as int / n as int,
{
    assert(0 <= a as int / n as int <= a) by (nonlinear_arith)
        requires
            n > 0,
            a >= 0,
    ;
}

/// Whether the first `n` coded bits can be read: what they cost are costs.
pub open spec fn readable<M: PathMetric>(costs: Seq<BitCost<M>>, n: int) -> bool {
    forall|i: int|
        0 <= i < n ==> (#[trigger] costs[i]).zero.is_cost() && costs[i].one.is_cost()
}

/// A cost that is not below one above the empty path is above the empty path.
pub(crate) proof fn stays_above_zero<M: PathMetric>(low: M, high: M)
    requires
        consistent::<M>(),
        low.is_cost(),
        high.is_cost(),
        M::zero_value().precedes(low),
        !high.precedes(low),
    ensures
        M::zero_value().precedes(high),
{
    if !M::zero_value().precedes(high) {
        assert(!M::zero_value().precedes(low));
    }
}

pub(crate) proof fn branch_is_cost<M: PathMetric>(
    costs: Seq<BitCost<M>>,
    step: int,
    state: int,
    bit: bool,
)
    requires
        consistent::<M>(),
        0 <= step,
        readable(costs, 2 * step + 2),
    ensures
        branch_cost(costs, step, state, bit).is_cost(),
{
    assert(costs[2 * step].zero.is_cost() && costs[2 * step].one.is_cost());
    assert(costs[2 * step + 1].zero.is_cost() && costs[2 * step + 1].one.is_cost());
}

pub(crate) proof fn survivor_is_cost<M: PathMetric>(
    costs: Seq<BitCost<M>>,
    steps: nat,
    state: int,
)
    requires
        consistent::<M>(),
        readable(costs, 2 * steps as int),
    ensures
        survivor_cost(costs, steps, state).is_cost(),
    decreases steps,
{
    if steps > 0 {
        let step = (steps - 1) as nat;
        let bit = state % 2 == 1;
        survivor_is_cost(costs, step, state / 2);
        survivor_is_cost(costs, step, state / 2 + 8);
        branch_is_cost(costs, step as int, state / 2, bit);
        branch_is_cost(costs, step as int, state / 2 + 8, bit);
    }
}

pub(crate) proof fn path_is_cost<M: PathMetric>(costs: Seq<BitCost<M>>, word: Seq<bool>)
    requires
        consistent::<M>(),
        readable(costs, 2 * word.len() as int),
    ensures
        path_cost(costs, word).is_cost(),
    decreases word.len(),
{
    if word.len() > 0 {
        let prefix = word.drop_last();
        path_is_cost(costs, prefix);
        branch_is_cost(costs, prefix.len() as int, state_after(prefix), word.last());
    }
}

pub(crate) proof fn state_after_bounds(word: Seq<bool>)
    ensures
        0 <= state_after(word) < 16,
    decreases word.len(),
{
    if word.len() > 0 {
        state_after_bounds(word.drop_last());
    }
}

/// A survivor whose cost is below the limit is a real path: it spells as many
/// bits as there were steps, leads to its state, and costs what is recorded.
pub proof fn survivor_is_a_path<M: PathMetric>(costs: Seq<BitCost<M>>, steps: nat, state: int)
    requires
        0 <= state < 16,
        survivor_cost(costs, steps, state).precedes(M::limit_value()),
        consistent::<M>(),
    ensures
        survivor(costs, steps, state).len() == steps,
        state_after(survivor(costs, steps, state)) == state,
        path_cost(costs, survivor(costs, steps, state)) == survivor_cost(costs, steps, state),
    decreases steps,
{
    if steps > 0 {
        let link = survivor_link(costs, steps, state);
        let word = survivor(costs, steps, state);
        survivor_is_a_path(costs, (steps - 1) as nat, link.0);
        assert(word.drop_last() =~= survivor(costs, (steps - 1) as nat, link.0));
    }
}

/// Optimality: no message of that many bits that leads to `state` is strictly
/// cheaper than the survivor into it.
pub proof fn survivor_is_cheapest<M: PathMetric>(costs: Seq<BitCost<M>>, word: Seq<bool>)
    requires
        consistent::<M>(),
        readable(costs, 2 * word.len() as int),
    ensures
        !path_cost(costs, word).precedes(survivor_cost(costs, word.len(), state_after(word))),
    decreases word.len(),
{
    if word.len() > 0 {
        let prefix = word.drop_last();
        survivor_is_cheapest(costs, prefix);
        state_after_bounds(prefix);
        path_is_cost(costs, prefix);
        path_is_cost(costs, word);
        let from = state_after(prefix);
        let state = state_after(word);
        let step = prefix.len();
        let bit = word.last();
        assert(state % 2 == 1 <==> bit);
        assert(from == state / 2 || from == state / 2 + 8);
        let cost = survivor_cost(costs, step, from);
        let branch = branch_cost(costs, step as int, from, bit);
        let limit = M::limit_value();
        let entered = survivor_cost(costs, word.len(), state);
        survivor_is_cost(costs, step, state / 2);
        survivor_is_cost(costs, step, state / 2 + 8);
        survivor_is_cost(costs, word.len(), state);
        branch_is_cost(costs, step as int, state / 2, bit);
        branch_is_cost(costs, step as int, state / 2 + 8, bit);
        survivor_within_limit(costs, word.len(), state);
        assert(!path_cost(costs, word).precedes(cost.sum(branch)));
        if cost.precedes(limit) {
            let low = state / 2;
            let low_cost = survivor_cost(costs, step, low);
            let first = if contend(costs, step as int, low, low_cost, state, limit) {
                low_cost.sum(branch_cost(costs, step as int, low, bit))
            } else {
                limit
            };
            if from == low {
                assert(!cost.sum(branch).precedes(first));
                assert(!first.precedes(entered));
            }
            assert(!cost.sum(branch).precedes(entered));
        } else {
            assert(!cost.sum(branch).precedes(cost));
            assert(!cost.precedes(limit));
            assert(!cost.sum(branch).precedes(limit));
            assert(!limit.precedes(entered));
        }
    }
}

/// No survivor cost exceeds the limit.
proof fn survivor_within_limit<M: PathMetric>(costs: Seq<BitCost<M>>, steps: nat, state: int)
    requires
        consistent::<M>(),
        readable(costs, 2 * steps as int),
    ensures
        !M::limit_value().precedes(survivor_cost(costs, steps, state)),
{
    survivor_is_cost(costs, steps, state);
    if steps > 0 {
        let step = (steps - 1) as nat;
        let bit = state % 2 == 1;
        survivor_is_cost(costs, step, state / 2);
        survivor_is_cost(costs, step, state / 2 + 8);
        branch_is_cost(costs, step as int, state / 2, bit);
        branch_is_cost(costs, step as int, state / 2 + 8, bit);
    }
}

pub(crate) proof fn cheapest_state_bounds<M: PathMetric>(
    costs: Seq<BitCost<M>>,
    steps: nat,
    upto: nat,
)
    ensures
        0 <= cheapest_state(costs, steps, upto) <= upto,
    decreases upto,
{
    if upto > 0 {
        cheapest_state_bounds(costs, steps, (upto - 1) as nat);
    }
}

/// In how many of the first `a.len()` places `a` and `b` differ.
pub open spec fn mismatches(a: Seq<bool>, b: Seq<bool>) -> nat
    decreases a.len(),
{
    if a.len() == 0 {
        0
    } else {
        mismatches(a.drop_last(), b) + if a.last() != b[a.len() - 1] {
            1nat
        } else {
            0
        }
    }
}

pub(crate) proof fn encode_len(word: Seq<bool>)
    ensures
        encode(word).len() == 2 * word.len(),
    decreases word.len(),
{
    if word.len() > 0 {
        encode_len(word.drop_last());
    }
}

pub(crate) proof fn mismatches_bound(a: Seq<bool>, b: Seq<bool>)
    ensures
        mismatches(a, b) <= a.len(),
    decreases a.len(),
{
    if a.len() > 0 {
        mismatches_bound(a.drop_last(), b);
    }
}

/// The cost of a message under hard decisions is the number of received bits
/// that its encoding gets wrong.
pub proof fn path_cost_counts_mismatches(received: Seq<bool>, word: Seq<bool>)
    requires
        2 * word.len() <= received.len(),
        2 * word.len() <= u32::MAX,
    ensures
        path_cost(hard_costs(received), word) == mismatches(encode(word), received),
    decreases word.len(),
{
    if word.len() > 0 {
        let prefix = word.drop_last();
        path_cost_counts_mismatches(received, prefix);
        encode_len(prefix);
        mismatches_bound(encode(prefix), received);
        let code = encode(word);
        let pair = coded_pair(state_after(prefix), word.last());
        assert(code.drop_last() =~= encode(prefix).push(pair.0));
        assert(code.drop_last().drop_last() =~= encode(prefix));
        reveal_with_fuel(mismatches, 3);
        let k = prefix.len() as int;
        assert(hard_costs(received)[2 * k] == hard_cost(received[2 * k]));
        assert(hard_costs(received)[2 * k + 1] == hard_cost(received[2 * k + 1]));
    }
}

proof fn no_mismatch_means_equal(a: Seq<bool>, b: Seq<bool>)
    requires
        a.len() == b.len(),
    ensures
        mismatches(a, b) == 0 ==> a == b,
        mismatches(a, a) == 0,
    decreases a.len(),
{
    if a.len() > 0 {
        no_mismatch_means_equal(a.drop_last(), b.drop_last());
        mismatches_ignores_rest(a.drop_last(), b.drop_last(), b);
        mismatches_ignores_rest(a.drop_last(), a.drop_last(), a);
        if mismatches(a, b) == 0 {
            assert(a =~= a.drop_last().push(a.last()));
            assert(b =~= b.drop_last().push(b.last()));
        }
    } else {
        assert(a =~= b);
    }
}

proof fn mismatches_ignores_rest(a: Seq<bool>, b: Seq<bool>, c: Seq<bool>)
    requires
        a.len() <= b.len(),
        b.is_prefix_of(c),
    ensures
        mismatches(a, b) == mismatches(a, c),
    decreases a.len(),
{
    if a.len() > 0 {
        mismatches_ignores_rest(a.drop_last(), b, c);
    }
}

/// Different messages of one length have different encodings.
pub proof fn encoding_is_injective(v: Seq<bool>, w: Seq<bool>)
    requires
        v.len() == w.len(),
        encode(v) == encode(w),
    ensures
        v == w,
    decreases v.len(),
{
    if v.len() > 0 {
        let v1 = v.drop_last();
        let w1 = w.drop_last();
        encode_len(v1);
        encode_len(w1);
        let n = encode(v1).len() as int;
        assert(encode(v).take(n) =~= encode(v1));
        assert(encode(w).take(n) =~= encode(w1));
        encoding_is_injective(v1, w1);
        assert(encode(v)[n] == coded_pair(state_after(v1), v.last()).0);
        assert(encode(w)[n] == coded_pair(state_after(w1), w.last()).0);
        assert(v =~= v1.push(v.last()));
        assert(w =~= w1.push(w.last()));
    } else {
        assert(v =~= w);
    }
}

/// Four zero tail bits lead the encoder back to the all-zero state.
pub proof fn tail_bits_clear_the_state(word: Seq<bool>)
    requires
        word.len() >= 4,
        forall|i: int| word.len() - 4 <= i < word.len() ==> !#[trigger] word[i],
    ensures
        state_after(word) == 0,
{
    let a = word.drop_last();
    let b = a.drop_last();
    let c = b.drop_last();
    let d = c.drop_last();
    state_after_bounds(d);
    assert(!word.last() && !a.last() && !b.last() && !c.last());
    assert(state_after(c) % 2 == 0 && 0 <= state_after(c) < 16);
    assert(state_after(b) % 4 == 0 && 0 <= state_after(b) < 16);
    assert(state_after(a) % 8 == 0 && 0 <= state_after(a) < 16);
}

/// Hard decisions never fail for want of a path: with enough coded bits, and
/// a message short enough that even all-wrong bits stay under the limit,
/// decoding succeeds, and of all messages that end in the all-zero state it
/// finds one whose encoding is nearest to what was received.
pub proof fn hard_decoding_finds_the_nearest(received: Seq<bool>, word: Seq<bool>)
    requires
        2 * word.len() <= received.len(),
        2 * word.len() < 1_000_000,
        state_after(word) == 0,
    ensures
        decoded(hard_costs(received), word.len()) matches Some((best, count)) && {
            &&& best.len() == word.len()
            &&& state_after(best) == 0
            &&& count == mismatches(encode(best), received)
            &&& count <= mismatches(encode(word), received)
        },
{
    let costs = hard_costs(received);
    path_cost_counts_mismatches(received, word);
    encode_len(word);
    mismatches_bound(encode(word), received);
    mismatch_count_is_consistent();
    survivor_is_cheapest(costs, word);
    let best = survivor(costs, word.len(), 0);
    survivor_is_a_path(costs, word.len(), 0);
    path_cost_counts_mismatches(received, best);
}

/// A message that ends in the all-zero state, encoded and received without
/// error, decodes to itself with no mismatch.
pub proof fn clean_message_decodes_to_itself(word: Seq<bool>)
    requires
        2 * word.len() < 1_000_000,
        state_after(word) == 0,
    ensures
        decoded(hard_costs(encode(word)), word.len()) == Some((word, 0u32)),
{
    let received = encode(word);
    encode_len(word);
    hard_decoding_finds_the_nearest(received, word);
    no_mismatch_means_equal(received, received);
    let found = decoded(hard_costs(received), word.len())->0;
    let best = found.0;
    encode_len(best);
    no_mismatch_means_equal(encode(best), received);
    encoding_is_injective(best, word);
}

/// The message bit at place `i`; before the message there are zeros.
pub open spec fn message_bit(word: Seq<bool>, i: int) -> bool {
    0 <= i < word.len() && word[i]
}

proof fn state_holds_the_last_bits(word: Seq<bool>)
    ensures
        0 <= state_after(word) < 16,
        state_after(word) % 2 == 1 <==> message_bit(word, word.len() - 1),
        (state_after(word) / 2) % 2 == 1 <==> message_bit(word, word.len() - 2),
        (state_after(word) / 4) % 2 == 1 <==> message_bit(word, word.len() - 3),
        (state_after(word) / 8) % 2 == 1 <==> message_bit(word, word.len() - 4),
    decreases word.len(),
{
    if word.len() > 0 {
        let prefix = word.drop_last();
        state_holds_the_last_bits(prefix);
        let n = word.len() as int;
        assert(message_bit(prefix, n - 2) == message_bit(word, n - 2));
        assert(message_bit(prefix, n - 3) == message_bit(word, n - 3));
        assert(message_bit(prefix, n - 4) == message_bit(word, n - 4));
    }
}

/// Each message bit is sent as two: the sum of it and those three and four
/// before, and that sum with the one before as well.
pub proof fn coded_bits_follow_the_generators(word: Seq<bool>, i: int)
    requires
        0 <= i < word.len(),
    ensures
        encode(word).len() == 2 * word.len(),
        encode(word)[2 * i] == ((word[i] != message_bit(word, i - 3)) != message_bit(word, i - 4)),
        encode(word)[2 * i + 1] == (encode(word)[2 * i] != message_bit(word, i - 1)),
    decreases word.len(),
{
    let prefix = word.drop_last();
    encode_len(word);
    encode_len(prefix);
    state_holds_the_last_bits(prefix);
    if i < prefix.len() {
        coded_bits_follow_the_generators(prefix, i);
        assert(encode(word)[2 * i] == encode(prefix)[2 * i]);
        assert(encode(word)[2 * i + 1] == encode(prefix)[2 * i + 1]);
        assert(message_bit(prefix, i - 1) == message_bit(word, i - 1));
        assert(message_bit(prefix, i - 3) == message_bit(word, i - 3));
        assert(message_bit(prefix, i - 4) == message_bit(word, i - 4));
    } else {
        assert(message_bit(prefix, i - 1) == message_bit(word, i - 1));
        assert(message_bit(prefix, i - 3) == message_bit(word, i - 3));
        assert(message_bit(prefix, i - 4) == message_bit(word, i - 4));
    }
}

/// A message costs what it costs to read each pair of coded bits as its
/// encoding has them, pair by pair.
pub proof fn message_cost_is_that_of_its_coded_bits<M: PathMetric>(
    costs: Seq<BitCost<M>>,
    word: Seq<bool>,
)
    ensures
        word.len() == 0 ==> path_cost(costs, word) == M::zero_value(),
        word.len() > 0 ==> ({
            let k = 2 * (word.len() - 1);
            let code = encode(word);
            let first = if code[k] {
                costs[k].one
            } else {
                costs[k].zero
            };
            let second = if code[k + 1] {
                costs[k + 1].one
            } else {
                costs[k + 1].zero
            };
            path_cost(costs, word) == path_cost(costs, word.drop_last()).sum(first.sum(second))
        }),
{
    if word.len() > 0 {
        encode_len(word.drop_last());
    }
}

/// Of two ways into a state that cost the same, the one from the lower state is
/// kept.
pub proof fn ties_go_to_the_lower_state<M: PathMetric>(
    costs: Seq<BitCost<M>>,
    step: nat,
    low: int,
    bit: bool,
)
    requires
        0 <= low < 8,
        ({
            let state = 2 * low + if bit {
                1int
            } else {
                0
            };
            let from_low = survivor_cost(costs, step, low).sum(
                branch_cost(costs, step as int, low, bit),
            );
            let from_high = survivor_cost(costs, step, low + 8).sum(
                branch_cost(costs, step as int, low + 8, bit),
            );
            &&& survivor_cost(costs, step, low).precedes(M::limit_value())
            &&& from_low.precedes(M::limit_value())
            &&& !from_high.precedes(from_low)
        }),
    ensures
        survivor(
            costs,
            step + 1,
            2 * low + if bit {
                1int
            } else {
                0
            },
        ) == survivor(costs, step, low).push(bit),
{
}

/// Coded bits that are missing are not made up.
pub proof fn missing_bits_do_not_decode<M: PathMetric>(costs: Seq<BitCost<M>>, steps: nat)
    requires
        costs.len() < 2 * steps,
    ensures
        decoded(costs, steps) is None,
{
}

/// Where no path comes back to the all-zero state, the cheapest there is, if
/// any, is taken.
pub proof fn any_path_is_better_than_none<M: PathMetric>(
    costs: Seq<BitCost<M>>,
    steps: nat,
    state: int,
)
    requires
        consistent::<M>(),
        2 * steps <= costs.len(),
        readable(costs, 2 * steps as int),
        0 <= state < 16,
        !survivor_cost(costs, steps, 0).precedes(M::limit_value()),
        survivor_cost(costs, steps, state).precedes(M::limit_value()),
    ensures
        decoded(costs, steps) matches Some((word, total)) && {
            &&& word.len() == steps
            &&& total == path_cost(costs, word)
            &&& !survivor_cost(costs, steps, state).precedes(total)
        },
{
    cheapest_state_bounds(costs, steps, 15);
    cheapest_state_is_least(costs, steps, 15, state);
    let best = cheapest_state(costs, steps, 15);
    survivor_is_cost(costs, steps, best);
    survivor_is_cost(costs, steps, state);
    let total = survivor_cost(costs, steps, best);
    if !total.precedes(M::limit_value()) {
        assert(!survivor_cost(costs, steps, state).precedes(M::limit_value()));
    }
    survivor_is_a_path(costs, steps, best);
}

proof fn cheapest_state_is_least<M: PathMetric>(
    costs: Seq<BitCost<M>>,
    steps: nat,
    upto: nat,
    state: int,
)
    requires
        consistent::<M>(),
        readable(costs, 2 * steps as int),
        0 <= state <= upto,
    ensures
        !survivor_cost(costs, steps, state).precedes(
            survivor_cost(costs, steps, cheapest_state(costs, steps, upto)),
        ),
    decreases upto,
{
    survivor_is_cost(costs, steps, state);
    survivor_is_cost(costs, steps, upto as int);
    survivor_is_cost(costs, steps, cheapest_state(costs, steps, upto));
    if upto > 0 {
        let held = cheapest_state(costs, steps, (upto - 1) as nat);
        survivor_is_cost(costs, steps, held);
        if state < upto {
            cheapest_state_is_least(costs, steps, (upto - 1) as nat, state);
        } else {
            cheapest_state_is_least(costs, steps, (upto - 1) as nat, 0);
        }
    }
}

} // verus!
