//! What soft-decision decoding finds, whatever its samples are measured in.

use crate::distance::three_errors_are_corrected;
use crate::soft::{arranged, arranging_swaps_and_negates, cost_view, SoftBit};
use crate::viterbi::{
    branch_cost, branch_is_cost, coded_pair, consistent, contend, decoded, encode, encode_len,
    encoding_is_injective, hard_cost, hard_costs, mismatch_count_is_consistent, mismatches,
    mismatches_bound, path_cost, path_cost_counts_mismatches, path_is_cost, readable, state_after,
    state_after_bounds, stays_above_zero, survivor, survivor_cost, survivor_is_a_path,
    survivor_is_cheapest, survivor_is_cost, survivor_link, tail_bits_clear_the_state, BitCost,
    PathMetric,
};
use vstd::prelude::*;

verus! {

/// Whether the samples read as `code` without doubt: it costs nothing to read
/// each of them so, and something to read it otherwise.
pub open spec fn reads_clean<M: PathMetric>(costs: Seq<BitCost<M>>, code: Seq<bool>) -> bool {
    &&& code.len() <= costs.len()
    &&& forall|i: int|
        0 <= i < code.len() ==> {
            &&& (#[trigger] costs[i]).of(code[i]) == M::zero_value()
            &&& costs[i].of(!code[i]).is_cost()
            &&& M::zero_value().precedes(costs[i].of(!code[i]))
        }
}

pub(crate) proof fn clean_is_readable<M: PathMetric>(costs: Seq<BitCost<M>>, code: Seq<bool>)
    requires
        consistent::<M>(),
        reads_clean(costs, code),
    ensures
        readable(costs, code.len() as int),
{
    assert forall|i: int| 0 <= i < code.len() implies (#[trigger] costs[i]).zero.is_cost()
        && costs[i].one.is_cost() by {
        assert(costs[i].of(code[i]) == M::zero_value());
    }
}

/// A path costs nothing where it spells the samples, and something where it
/// does not.
proof fn clean_path_cost<M: PathMetric>(costs: Seq<BitCost<M>>, code: Seq<bool>, word: Seq<bool>)
    requires
        consistent::<M>(),
        reads_clean(costs, code),
        2 * word.len() <= code.len(),
    ensures
        encode(word) == code.take(2 * word.len() as int) ==> path_cost(costs, word)
            == M::zero_value(),
        encode(word) != code.take(2 * word.len() as int) ==> M::zero_value().precedes(
            path_cost(costs, word),
        ),
    decreases word.len(),
{
    let n = word.len() as int;
    if n == 0 {
        assert(encode(word) =~= code.take(0));
    } else {
        let prefix = word.drop_last();
        clean_path_cost(costs, code, prefix);
        clean_is_readable(costs, code);
        encode_len(prefix);
        let k = prefix.len() as int;
        let s = state_after(prefix);
        let pair = coded_pair(s, word.last());
        let before = path_cost(costs, prefix);
        let branch = branch_cost(costs, k, s, word.last());
        path_is_cost(costs, prefix);
        branch_is_cost(costs, k, s, word.last());
        let first = costs[2 * k].of(pair.0);
        let second = costs[2 * k + 1].of(pair.1);
        assert(first.is_cost() && second.is_cost());
        assert(pair.0 == code[2 * k] ==> first == M::zero_value());
        assert(pair.0 != code[2 * k] ==> M::zero_value().precedes(first));
        assert(pair.1 == code[2 * k + 1] ==> second == M::zero_value());
        assert(pair.1 != code[2 * k + 1] ==> M::zero_value().precedes(second));
        if pair.0 != code[2 * k] {
            stays_above_zero(first, branch);
        } else if pair.1 != code[2 * k + 1] {
            stays_above_zero(second, branch);
        }
        let e = encode(word);
        let c = code.take(2 * n);
        if encode(prefix) == code.take(2 * k) && pair.0 == code[2 * k] && pair.1 == code[2 * k
            + 1] {
            assert(e =~= c);
        } else {
            if encode(prefix) != code.take(2 * k) {
                stays_above_zero(before, before.sum(branch));
                if e == c {
                    assert(encode(prefix) =~= e.take(2 * k));
                    assert(code.take(2 * k) =~= c.take(2 * k));
                }
            } else {
                stays_above_zero(branch, before.sum(branch));
                assert(e[2 * k] == pair.0 && e[2 * k + 1] == pair.1);
                assert(c[2 * k] == code[2 * k] && c[2 * k + 1] == code[2 * k + 1]);
            }
        }
    }
}

/// A message that ends in the all-zero state, encoded and received without
/// doubt, decodes to itself at no cost.
pub proof fn clean_samples_decode<M: PathMetric>(costs: Seq<BitCost<M>>, word: Seq<bool>)
    requires
        consistent::<M>(),
        reads_clean(costs, encode(word)),
        state_after(word) == 0,
    ensures
        decoded(costs, word.len()) == Some((word, M::zero_value())),
{
    let code = encode(word);
    let n = word.len();
    encode_len(word);
    clean_is_readable(costs, code);
    assert(code.take(2 * n as int) =~= code);
    clean_path_cost(costs, code, word);
    survivor_is_cheapest(costs, word);
    let total = survivor_cost(costs, n, 0);
    survivor_is_cost(costs, n, 0);
    assert(!M::zero_value().precedes(total));
    if !total.precedes(M::limit_value()) {
        assert(!M::zero_value().precedes(M::limit_value()));
    }
    survivor_is_a_path(costs, n, 0);
    let found = survivor(costs, n, 0);
    clean_path_cost(costs, code, found);
    encoding_is_injective(found, word);
}

/// The cost of `k` steps of cost `unit`.
pub open spec fn times<M: PathMetric>(unit: M, k: nat) -> M
    decreases k,
{
    if k == 0 {
        M::zero_value()
    } else {
        times(unit, (k - 1) as nat).sum(unit)
    }
}

/// Whether costs count steps of cost `unit` as numbers do, up to `upto` of
/// them, which stay below the limit; shared among as many bits, they are one
/// step each.
pub open spec fn counts<M: PathMetric>(unit: M, upto: nat) -> bool {
    &&& times(unit, 1) == unit
    &&& !M::limit_value().precedes(M::limit_value())
    &&& forall|j: nat, k: nat|
        j + k <= upto ==> #[trigger] times(unit, j).sum(#[trigger] times(unit, k)) == times(
            unit,
            j + k,
        )
    &&& forall|j: nat, k: nat|
        j <= upto && k <= upto ==> (#[trigger] times(unit, j).precedes(#[trigger] times(unit, k))
            <==> j < k)
    &&& forall|k: nat|
        k <= upto ==> (#[trigger] times(unit, k)).precedes(M::limit_value())
            && !M::limit_value().precedes(times(unit, k))
    &&& forall|k: usize| 0 < k <= upto ==> #[trigger] times(unit, k as nat).share(k) == unit
}

/// Mismatch counts count mismatches.
pub proof fn mismatch_counts_count(upto: nat)
    requires
        1 <= upto < 1_000_000,
    ensures
        counts(1u32, upto),
        forall|k: nat| k <= upto ==> #[trigger] times(1u32, k) == k,
{
    assert forall|k: nat| k <= upto implies #[trigger] times(1u32, k) == k by {
        count_of_ones(k);
    }
    assert forall|k: usize| 0 < k <= upto implies #[trigger] times(1u32, k as nat).share(k)
        == 1u32 by {
        count_of_ones(k as nat);
        assert(k as nat / k as nat == 1) by (nonlinear_arith)
            requires
                k > 0,
        ;
    }
}

proof fn count_of_ones(k: nat)
    requires
        k < 1_000_000,
    ensures
        times(1u32, k) == k,
    decreases k,
{
    if k > 0 {
        count_of_ones((k - 1) as nat);
    }
}

/// The costs of samples that are one or minus one: nothing to read a sample as
/// what it stands for, and `unit` to read it otherwise.
pub open spec fn signed_costs<M: PathMetric>(received: Seq<bool>, unit: M) -> Seq<BitCost<M>> {
    received.map_values(
        |b: bool|
            BitCost {
                zero: if b {
                    unit
                } else {
                    M::zero_value()
                },
                one: if b {
                    M::zero_value()
                } else {
                    unit
                },
            },
    )
}

pub(crate) proof fn signed_is_readable<M: PathMetric>(received: Seq<bool>, unit: M)
    requires
        consistent::<M>(),
        unit.is_cost(),
    ensures
        readable(signed_costs(received, unit), received.len() as int),
{
}

/// Whether `soft` is the cost of `hard` steps, of which there are at most
/// `bound`, or both are out of reach.
spec fn same_cost<M: PathMetric>(hard: u32, soft: M, unit: M, bound: nat) -> bool {
    ||| hard <= bound && soft == times(unit, hard as nat)
    ||| hard == 1_000_000 && soft == M::limit_value()
}

proof fn branches_agree<M: PathMetric>(
    received: Seq<bool>,
    unit: M,
    step: int,
    state: int,
    bit: bool,
)
    requires
        0 <= step,
        2 * step + 2 <= received.len(),
        counts(unit, 2),
    ensures
        branch_cost(hard_costs(received), step, state, bit) <= 2,
        branch_cost(signed_costs(received, unit), step, state, bit) == times(
            unit,
            branch_cost(hard_costs(received), step, state, bit) as nat,
        ),
{
    let pair = coded_pair(state, bit);
    let soft = signed_costs(received, unit);
    let hard = hard_costs(received);
    let i = 2 * step;
    assert(hard[i] == hard_cost(received[i]));
    assert(hard[i + 1] == hard_cost(received[i + 1]));
    let a = hard[i].of(pair.0);
    let b = hard[i + 1].of(pair.1);
    assert(soft[i].of(pair.0) == times(unit, a as nat));
    assert(soft[i + 1].of(pair.1) == times(unit, b as nat));
    assert(times(unit, a as nat).sum(times(unit, b as nat)) == times(
        unit,
        (a as nat + b as nat),
    ));
}

proof fn contests_agree<M: PathMetric>(
    received: Seq<bool>,
    unit: M,
    step: int,
    from: int,
    state: int,
    hard_from: u32,
    soft_from: M,
    hard_best: u32,
    soft_best: M,
)
    requires
        0 <= step,
        2 * step + 2 <= received.len(),
        2 * step + 2 < 1_000_000,
        counts(unit, (2 * step + 2) as nat),
        same_cost(hard_from, soft_from, unit, (2 * step) as nat),
        same_cost(hard_best, soft_best, unit, (2 * step + 2) as nat),
    ensures
        ({
            let hard = hard_costs(received);
            let soft = signed_costs(received, unit);
            let bit = state % 2 == 1;
            let wins = contend(hard, step, from, hard_from, state, hard_best);
            &&& wins == contend(soft, step, from, soft_from, state, soft_best)
            &&& wins ==> same_cost(
                hard_from.sum(branch_cost(hard, step, from, bit)),
                soft_from.sum(branch_cost(soft, step, from, bit)),
                unit,
                (2 * step + 2) as nat,
            )
        }),
{
    let bit = state % 2 == 1;
    branches_agree(received, unit, step, from, bit);
    let b = branch_cost(hard_costs(received), step, from, bit);
    if hard_from <= 2 * step {
        let j = hard_from as nat;
        let k = b as nat;
        assert(times(unit, j).sum(times(unit, k)) == times(unit, j + k));
        assert(times(unit, j).precedes(M::limit_value()));
        assert(times(unit, j + k).precedes(M::limit_value()));
        if hard_best <= 2 * step + 2 {
            assert(times(unit, j + k).precedes(times(unit, hard_best as nat)) <==> j + k
                < hard_best);
        }
    }
}

proof fn survivors_agree<M: PathMetric>(received: Seq<bool>, unit: M, steps: nat, state: int)
    requires
        2 * steps <= received.len(),
        2 * steps < 1_000_000,
        counts(unit, 2 * steps),
    ensures
        same_cost(
            survivor_cost(hard_costs(received), steps, state),
            survivor_cost(signed_costs(received, unit), steps, state),
            unit,
            2 * steps,
        ),
        survivor(hard_costs(received), steps, state) == survivor(
            signed_costs(received, unit),
            steps,
            state,
        ),
    decreases steps,
{
    if steps > 0 {
        let hard = hard_costs(received);
        let soft = signed_costs(received, unit);
        let step = (steps - 1) as nat;
        let low = state / 2;
        let high = state / 2 + 8;
        let bit = state % 2 == 1;
        survivors_agree(received, unit, step, low);
        survivors_agree(received, unit, step, high);
        survivors_agree(received, unit, step, 0);
        let hard_low = survivor_cost(hard, step, low);
        let soft_low = survivor_cost(soft, step, low);
        let hard_limit = 1_000_000u32;
        let soft_limit = M::limit_value();
        contests_agree(
            received,
            unit,
            step as int,
            low,
            state,
            hard_low,
            soft_low,
            hard_limit,
            soft_limit,
        );
        let hard_first = if contend(hard, step as int, low, hard_low, state, hard_limit) {
            hard_low.sum(branch_cost(hard, step as int, low, bit))
        } else {
            hard_limit
        };
        let soft_first = if contend(soft, step as int, low, soft_low, state, soft_limit) {
            soft_low.sum(branch_cost(soft, step as int, low, bit))
        } else {
            soft_limit
        };
        contests_agree(
            received,
            unit,
            step as int,
            high,
            state,
            survivor_cost(hard, step, high),
            survivor_cost(soft, step, high),
            hard_first,
            soft_first,
        );
        assert(survivor_link(hard, steps, state) == survivor_link(soft, steps, state));
    }
}

proof fn zeros_stay_in_state_zero(n: nat)
    ensures
        state_after(Seq::new(n, |i: int| false)) == 0,
    decreases n,
{
    let zeros = Seq::new(n, |i: int| false);
    if n > 0 {
        zeros_stay_in_state_zero((n - 1) as nat);
        assert(zeros.drop_last() =~= Seq::new((n - 1) as nat, |i: int| false));
    }
}

/// Soft and hard decisions agree on samples that are one or minus one: they
/// find the same message, or both none, and the soft cost is that of as many
/// steps as there are mismatches.
pub proof fn soft_and_hard_decoding_agree<M: PathMetric>(
    received: Seq<bool>,
    unit: M,
    steps: nat,
)
    requires
        2 * steps < 1_000_000,
        counts(unit, 2 * steps),
    ensures
        match (decoded(hard_costs(received), steps), decoded(signed_costs(received, unit), steps)) {
            (Some((v, count)), Some((u, total))) => u == v && total == times(unit, count as nat)
                && count <= 2 * steps && 2 * steps <= received.len(),
            (None, None) => received.len() < 2 * steps,
            _ => false,
        },
{
    if 2 * steps <= received.len() {
        zeros_stay_in_state_zero(steps);
        let zeros = Seq::new(steps, |i: int| false);
        encode_len(zeros);
        mismatches_bound(encode(zeros), received);
        path_cost_counts_mismatches(received, zeros);
        mismatch_count_is_consistent();
        survivor_is_cheapest(hard_costs(received), zeros);
        survivors_agree(received, unit, steps, 0);
    }
}

/// Three errors are corrected by soft decisions too: a message that ends in
/// the all-zero state is decoded from any samples of one and minus one that
/// differ from its encoding in at most three places.
pub proof fn three_errors_are_corrected_softly<M: PathMetric>(
    received: Seq<bool>,
    word: Seq<bool>,
    unit: M,
)
    requires
        2 * word.len() <= received.len(),
        2 * word.len() < 1_000_000,
        counts(unit, 2 * word.len()),
        state_after(word) == 0,
        mismatches(encode(word), received) <= 3,
    ensures
        decoded(signed_costs(received, unit), word.len()) == Some(
            (word, times(unit, mismatches(encode(word), received))),
        ),
{
    three_errors_are_corrected(received, word);
    soft_and_hard_decoding_agree(received, unit, word.len());
}

/// A message that leads to the all-zero state ends in four zeros.
proof fn state_zero_means_zero_tail(word: Seq<bool>)
    requires
        word.len() >= 4,
        state_after(word) == 0,
    ensures
        forall|i: int| word.len() - 4 <= i < word.len() ==> !#[trigger] word[i],
{
    let a = word.drop_last();
    let b = a.drop_last();
    let c = b.drop_last();
    let d = c.drop_last();
    state_after_bounds(d);
    state_after_bounds(c);
    state_after_bounds(b);
    state_after_bounds(a);
    assert(!word.last() && state_after(a) % 8 == 0);
    assert(!a.last() && state_after(b) % 4 == 0);
    assert(!b.last() && state_after(c) % 2 == 0);
    assert(!c.last());
}

/// Whether reading any of the first `n` samples, either way, costs at most
/// `unit`.
pub open spec fn costs_at_most<M: PathMetric>(
    costs: Seq<BitCost<M>>,
    n: int,
    unit: M,
) -> bool {
    forall|i: int|
        0 <= i < n ==> !unit.precedes((#[trigger] costs[i]).zero) && !unit.precedes(costs[i].one)
}

proof fn path_cost_bound<M: PathMetric>(costs: Seq<BitCost<M>>, word: Seq<bool>, unit: M)
    requires
        consistent::<M>(),
        unit.is_cost(),
        counts(unit, 2 * word.len()),
        readable(costs, 2 * word.len() as int),
        costs_at_most(costs, 2 * word.len() as int, unit),
    ensures
        times(unit, 2 * word.len()).is_cost(),
        !times(unit, 2 * word.len()).precedes(path_cost(costs, word)),
    decreases word.len(),
{
    if word.len() > 0 {
        let prefix = word.drop_last();
        path_cost_bound(costs, prefix, unit);
        let k = prefix.len() as int;
        let s = state_after(prefix);
        let pair = coded_pair(s, word.last());
        let before = path_cost(costs, prefix);
        let branch = branch_cost(costs, k, s, word.last());
        path_is_cost(costs, prefix);
        branch_is_cost(costs, k, s, word.last());
        let first = costs[2 * k].of(pair.0);
        let second = costs[2 * k + 1].of(pair.1);
        assert(first.is_cost() && second.is_cost());
        assert(!unit.precedes(first) && !unit.precedes(second));
        let pair_most = unit.sum(unit);
        assert(!unit.sum(unit).precedes(first.sum(unit)));
        assert(!first.sum(unit).precedes(first.sum(second)));
        assert(!pair_most.precedes(branch));
        let most = times(unit, 2 * prefix.len());
        assert(!most.sum(pair_most).precedes(before.sum(pair_most)));
        assert(!before.sum(pair_most).precedes(before.sum(branch)));
        assert(times(unit, 1).sum(times(unit, 1)) == times(unit, 2));
        assert(times(unit, 2 * prefix.len()).sum(times(unit, 2)) == times(
            unit,
            (2 * prefix.len() + 2) as nat,
        ));
    }
}

/// Soft decisions never fail for want of a path where samples can be read: a
/// message is found that ends in the all-zero state, and so in four zeros, at
/// a cost of at most one step for each coded bit.
pub proof fn readable_samples_decode<M: PathMetric>(
    costs: Seq<BitCost<M>>,
    steps: nat,
    unit: M,
)
    requires
        consistent::<M>(),
        unit.is_cost(),
        counts(unit, 2 * steps),
        2 * steps <= costs.len(),
        2 * steps <= usize::MAX,
        readable(costs, 2 * steps as int),
        costs_at_most(costs, 2 * steps as int, unit),
    ensures
        decoded(costs, steps) matches Some((word, total)) && {
            &&& word.len() == steps
            &&& state_after(word) == 0
            &&& steps >= 4 ==> forall|i: int| steps - 4 <= i < steps ==> !#[trigger] word[i]
            &&& total.is_cost()
            &&& !total.precedes(M::zero_value())
            &&& !times(unit, 2 * steps).precedes(total)
            &&& steps > 0 ==> !unit.precedes(total.share((2 * steps) as usize))
        },
{
    let zeros = Seq::new(steps, |i: int| false);
    zeros_stay_in_state_zero(steps);
    path_cost_bound(costs, zeros, unit);
    path_is_cost(costs, zeros);
    survivor_is_cheapest(costs, zeros);
    let total = survivor_cost(costs, steps, 0);
    let most = times(unit, 2 * steps);
    survivor_is_cost(costs, steps, 0);
    assert(!most.precedes(path_cost(costs, zeros)));
    assert(!most.precedes(total));
    if !total.precedes(M::limit_value()) {
        assert(!most.precedes(M::limit_value()));
    }
    survivor_is_a_path(costs, steps, 0);
    if steps > 0 {
        let n = (2 * steps) as usize;
        assert(!most.share(n).precedes(total.share(n)));
        assert(times(unit, n as nat).share(n) == unit);
    }
    if steps >= 4 {
        state_zero_means_zero_tail(survivor(costs, steps, 0));
    }
}

/// Decoding fails where a sample cannot be read: no path is left once reading
/// it either way costs what spoils every sum and is never below the limit.
pub proof fn unreadable_sample_fails<M: PathMetric>(
    costs: Seq<BitCost<M>>,
    steps: nat,
    at: int,
    spoils: spec_fn(M) -> bool,
)
    requires
        !M::limit_value().precedes(M::limit_value()),
        forall|m: M, c: M|
            #![trigger m.sum(c)]
            spoils(m) || spoils(c) ==> spoils(m.sum(c)),
        forall|m: M, c: M| spoils(m) ==> !#[trigger] m.precedes(c),
        0 <= at < 2 * steps,
        spoils(costs[at].zero),
        spoils(costs[at].one),
    ensures
        decoded(costs, steps) is None,
{
    assert forall|s: int| #[trigger] survivor_cost(costs, steps, s) == M::limit_value() by {
        spoilt_survivor(costs, steps, at, spoils, s);
    }
}

proof fn spoilt_survivor<M: PathMetric>(
    costs: Seq<BitCost<M>>,
    steps: nat,
    at: int,
    spoils: spec_fn(M) -> bool,
    state: int,
)
    requires
        !M::limit_value().precedes(M::limit_value()),
        forall|m: M, c: M|
            #![trigger m.sum(c)]
            spoils(m) || spoils(c) ==> spoils(m.sum(c)),
        forall|m: M, c: M| spoils(m) ==> !#[trigger] m.precedes(c),
        0 <= at < 2 * steps,
        spoils(costs[at].zero),
        spoils(costs[at].one),
    ensures
        survivor_cost(costs, steps, state) == M::limit_value(),
    decreases steps,
{
    let step = (steps - 1) as nat;
    let bit = state % 2 == 1;
    if at < 2 * step {
        spoilt_survivor(costs, step, at, spoils, state / 2);
        spoilt_survivor(costs, step, at, spoils, state / 2 + 8);
    } else {
        assert(at == 2 * step || at == 2 * step + 1);
        assert(spoils(branch_cost(costs, step as int, state / 2, bit)));
        assert(spoils(branch_cost(costs, step as int, state / 2 + 8, bit)));
    }
}

/// Soft decisions find the best: of all messages that end in four zeros none is
/// cheaper than the one decoded, which costs what is reported.
pub proof fn decoding_finds_the_cheapest<M: PathMetric>(
    costs: Seq<BitCost<M>>,
    other: Seq<bool>,
)
    requires
        consistent::<M>(),
        other.len() >= 4,
        forall|i: int| other.len() - 4 <= i < other.len() ==> !#[trigger] other[i],
        2 * other.len() <= costs.len(),
        readable(costs, 2 * other.len() as int),
        path_cost(costs, other).precedes(M::limit_value()),
    ensures
        decoded(costs, other.len()) matches Some((word, total)) && {
            &&& word.len() == other.len()
            &&& forall|i: int| word.len() - 4 <= i < word.len() ==> !#[trigger] word[i]
            &&& total == path_cost(costs, word)
            &&& !path_cost(costs, other).precedes(total)
        },
{
    let n = other.len();
    tail_bits_clear_the_state(other);
    survivor_is_cheapest(costs, other);
    survivor_is_cost(costs, n, 0);
    path_is_cost(costs, other);
    let total = survivor_cost(costs, n, 0);
    if !total.precedes(M::limit_value()) {
        assert(!path_cost(costs, other).precedes(M::limit_value()));
    }
    survivor_is_a_path(costs, n, 0);
    state_zero_means_zero_tail(survivor(costs, n, 0));
}

/// Where coded bit `i` goes when the bits of each coded pair change places.
pub open spec fn partner(i: int, swapped: bool) -> int {
    if !swapped {
        i
    } else if i % 2 == 0 {
        i + 1
    } else {
        i - 1
    }
}

/// Samples that read as a code sent with its bits inverted, or the bits of its
/// pairs swapped, read as the code once they are arranged.
pub proof fn arranging_undoes_how_it_was_sent<M: PathMetric>(
    bits: Seq<SoftBit<M>>,
    sent: Seq<bool>,
    code: Seq<bool>,
    invert: bool,
    swap: bool,
)
    requires
        sent.len() == code.len(),
        bits.len() == code.len(),
        code.len() % 2 == 0,
        reads_clean(cost_view(bits), sent),
        forall|i: int|
            0 <= i < code.len() ==> #[trigger] sent[i] == (code[partner(i, swap)] != invert),
    ensures
        reads_clean(cost_view(arranged(bits, invert, swap)), code),
{
    let turned = arranged(bits, invert, swap);
    let costs = cost_view(turned);
    assert forall|i: int| 0 <= i < code.len() implies {
        &&& (#[trigger] costs[i]).of(code[i]) == M::zero_value()
        &&& costs[i].of(!code[i]).is_cost()
        &&& M::zero_value().precedes(costs[i].of(!code[i]))
    } by {
        let from = partner(i, swap);
        assert(0 <= from < code.len() && partner(from, swap) == i);
        arranging_swaps_and_negates(bits, invert, swap, i, from);
        assert(costs[i] == turned[i].cost);
        assert(cost_view(bits)[from] == bits[from].cost);
        assert(sent[from] == (code[i] != invert));
    }
}

} // verus!
