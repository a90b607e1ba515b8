//! Choosing among decoding attempts and among burst candidates.

use crate::bits::bits_value;
use crate::distance::weight_of;
use crate::viterbi::{consistent, PathMetric};
use vstd::prelude::*;

verus! {

/// The number of ones in the binary notation of `v`.
pub open spec fn ones(v: nat) -> nat
    decreases v,
{
    if v == 0 {
        0
    } else {
        v % 2 + ones(v / 2)
    }
}

/// Counts the ones in `v`.
pub fn count_ones(v: u64) -> (n: u32)
    ensures
        n == ones(v as nat),
        n <= 64,
{
    let mut rest: u64 = v;
    let mut n: u32 = 0;
    let mut halvings: u32 = 0;
    proof {
        vstd::arithmetic::power2::lemma2_to64_rest();
    }
    while rest > 0
        invariant
            n + ones(rest as nat) == ones(v as nat),
            n <= halvings <= 64,
            rest < vstd::arithmetic::power2::pow2((64 - halvings) as nat),
        decreases rest,
    {
        proof {
            vstd::arithmetic::power2::lemma2_to64();
            vstd::arithmetic::power2::lemma2_to64_rest();
            if halvings < 64 {
                vstd::arithmetic::power2::lemma_pow2_unfold((64 - halvings) as nat);
            }
        }
        if rest % 2 == 1 {
            n = n + 1;
        }
        rest = rest / 2;
        halvings = halvings + 1;
    }
    n
}

/// What decoding attempts are judged by: whether the parity check passed, how
/// many syndrome bits are set, and what the decoded path costs.
pub struct Rank<M> {
    pub ok: bool,
    pub errors: nat,
    pub metric: M,
}

/// Whether `a` replaces `b`: fewer syndrome bits, or as many at a lower cost.
pub open spec fn outranks<M: PathMetric>(a: Rank<M>, b: Rank<M>) -> bool {
    a.errors < b.errors || (a.errors == b.errors && a.metric.precedes(b.metric))
}

/// The attempt that stays when each replaces the one held so far that it outranks.
pub open spec fn best_index<M: PathMetric>(ranks: Seq<Rank<M>>) -> int
    decreases ranks.len(),
{
    if ranks.len() <= 1 {
        0
    } else {
        let held = best_index(ranks.drop_last());
        if outranks(ranks.last(), ranks[held]) {
            ranks.len() - 1
        } else {
            held
        }
    }
}

/// The best attempt, if there was one.
pub open spec fn best<M: PathMetric>(ranks: Seq<Rank<M>>) -> Option<int> {
    if ranks.len() == 0 {
        None
    } else {
        Some(best_index(ranks))
    }
}

/// The first attempt from `from` on that passed its parity check.
pub open spec fn first_ok<M: PathMetric>(ranks: Seq<Rank<M>>, from: int) -> Option<int>
    decreases ranks.len() - from,
{
    if from < 0 || from >= ranks.len() {
        None
    } else if ranks[from].ok {
        Some(from)
    } else {
        first_ok(ranks, from + 1)
    }
}

/// The first attempt that passed its parity check, else the best of them all.
pub open spec fn chosen<M: PathMetric>(ranks: Seq<Rank<M>>) -> Option<int> {
    match first_ok(ranks, 0) {
        Some(i) => Some(i),
        None => best(ranks),
    }
}

pub(crate) proof fn best_index_bounds<M: PathMetric>(ranks: Seq<Rank<M>>)
    requires
        ranks.len() > 0,
    ensures
        0 <= best_index(ranks) < ranks.len(),
    decreases ranks.len(),
{
    if ranks.len() > 1 {
        best_index_bounds(ranks.drop_last());
    }
}

pub(crate) proof fn choice_bounds<M: PathMetric>(ranks: Seq<Rank<M>>)
    ensures
        chosen(ranks) matches Some(i) ==> 0 <= i < ranks.len(),
{
    first_ok_bounds(ranks, 0);
    if ranks.len() > 0 {
        best_index_bounds(ranks);
    }
}

proof fn first_ok_bounds<M: PathMetric>(ranks: Seq<Rank<M>>, from: int)
    ensures
        first_ok(ranks, from) matches Some(i) ==> from <= i < ranks.len() && 0 <= i,
    decreases ranks.len() - from,
{
    if 0 <= from < ranks.len() {
        first_ok_bounds(ranks, from + 1);
    }
}

pub(crate) proof fn first_ok_skips<M: PathMetric>(ranks: Seq<Rank<M>>, from: int, to: int)
    requires
        0 <= from <= to <= ranks.len(),
        forall|i: int| from <= i < to ==> !(#[trigger] ranks[i]).ok,
    ensures
        first_ok(ranks, from) == first_ok(ranks, to),
    decreases to - from,
{
    if from < to {
        first_ok_skips(ranks, from + 1, to);
    }
}

/// The best attempt is one of the attempts, and no attempt outranks it.
pub proof fn best_is_not_outranked<M: PathMetric>(ranks: Seq<Rank<M>>, i: int)
    requires
        consistent::<M>(),
        forall|k: int| 0 <= k < ranks.len() ==> (#[trigger] ranks[k]).metric.is_cost(),
        0 <= i < ranks.len(),
    ensures
        0 <= best_index(ranks) < ranks.len(),
        !outranks(ranks[i], ranks[best_index(ranks)]),
    decreases ranks.len(),
{
    best_index_bounds(ranks);
    if ranks.len() > 1 {
        let rest = ranks.drop_last();
        let held = best_index(rest);
        best_index_bounds(rest);
        let a = ranks[i];
        let b = ranks[held];
        let c = ranks.last();
        if i < rest.len() {
            best_is_not_outranked(rest, i);
            if outranks(c, b) && c.errors == b.errors && a.errors == b.errors {
                assert(!a.metric.precedes(b.metric));
                assert(!b.metric.precedes(c.metric));
                assert(!a.metric.precedes(c.metric));
            }
        } else if outranks(c, b) {
            assert(!(c.metric.precedes(c.metric)));
        }
    } else {
        let a = ranks[0];
        assert(!(a.metric.precedes(a.metric)));
    }
}

pub(crate) proof fn no_ones_means_zero(v: nat)
    requires
        ones(v) == 0,
    ensures
        v == 0,
    decreases v,
{
    if v > 0 {
        no_ones_means_zero(v / 2);
    }
}

/// Where the first attempt has no syndrome bit set, neither has the best, and
/// the first is the best unless another is cheaper.
pub proof fn first_without_errors_stands<M: PathMetric>(ranks: Seq<Rank<M>>)
    requires
        consistent::<M>(),
        forall|k: int| 0 <= k < ranks.len() ==> (#[trigger] ranks[k]).metric.is_cost(),
        ranks.len() > 0,
        ranks[0].errors == 0,
    ensures
        0 <= best_index(ranks) < ranks.len(),
        ranks[best_index(ranks)].errors == 0,
        best_index(ranks) == 0 || ranks[best_index(ranks)].metric.precedes(ranks[0].metric),
    decreases ranks.len(),
{
    if ranks.len() > 1 {
        let rest = ranks.drop_last();
        first_without_errors_stands(rest);
        let a = ranks[0].metric;
        let b = ranks[best_index(rest)].metric;
        let c = ranks.last().metric;
        if outranks(ranks.last(), ranks[best_index(rest)]) && best_index(rest) != 0 {
            assert(c.precedes(b) && b.precedes(a));
            if !c.precedes(a) {
                assert(!a.precedes(b));
                assert(!c.precedes(b));
            }
        }
    }
}

/// An attempt that passed its parity check is never passed over: the choice
/// passed whenever any attempt did.
pub proof fn passing_attempt_is_chosen<M: PathMetric>(ranks: Seq<Rank<M>>, i: int)
    requires
        0 <= i < ranks.len(),
        ranks[i].ok,
    ensures
        chosen(ranks) matches Some(k) && 0 <= k <= i && ranks[k].ok,
{
    first_ok_finds(ranks, 0, i);
}

proof fn first_ok_finds<M: PathMetric>(ranks: Seq<Rank<M>>, from: int, i: int)
    requires
        0 <= from <= i < ranks.len(),
        ranks[i].ok,
    ensures
        first_ok(ranks, from) matches Some(k) && from <= k <= i && ranks[k].ok,
    decreases i - from,
{
    if !ranks[from].ok {
        first_ok_finds(ranks, from + 1, i);
    }
}

/// Where a new burst candidate goes in a bounded list.
#[derive(Clone, Copy, PartialEq, Eq, Structural, Debug)]
pub enum Placement {
    /// It is dropped.
    Drop,
    /// It takes the place of the candidate at this index.
    Replace(usize),
    /// It is added at the end.
    Append,
}

/// The first of the candidates `0..=upto` with the lowest score.
pub open spec fn weakest(scores: Seq<u32>, upto: nat) -> int
    decreases upto,
{
    if upto == 0 {
        0
    } else {
        let held = weakest(scores, (upto - 1) as nat);
        if scores[upto as int] < scores[held] {
            upto as int
        } else {
            held
        }
    }
}

/// A candidate with a neighbour `near` competes with it alone; one without
/// joins while there is room, and then competes with the weakest.
pub open spec fn placement_of(
    scores: Seq<u32>,
    near: Option<int>,
    score: u32,
    capacity: nat,
) -> Placement {
    match near {
        Some(i) => if score > scores[i] {
            Placement::Replace(i as usize)
        } else {
            Placement::Drop
        },
        None => if scores.len() < capacity {
            Placement::Append
        } else if scores.len() == 0 {
            Placement::Drop
        } else {
            let i = weakest(scores, (scores.len() - 1) as nat);
            if score > scores[i] {
                Placement::Replace(i as usize)
            } else {
                Placement::Drop
            }
        },
    }
}

/// The list after the candidate went to its place.
pub open spec fn placed<C>(list: Seq<C>, candidate: C, place: Placement) -> Seq<C> {
    match place {
        Placement::Drop => list,
        Placement::Replace(i) => list.update(i as int, candidate),
        Placement::Append => list.push(candidate),
    }
}

/// Decides where a candidate goes.
pub fn place_candidate(
    scores: &[u32],
    near: Option<usize>,
    score: u32,
    capacity: usize,
) -> (place: Placement)
    requires
        near matches Some(i) ==> i < scores@.len(),
    ensures
        place == placement_of(
            scores@,
            match near {
                Some(i) => Some(i as int),
                None => None,
            },
            score,
            capacity as nat,
        ),
        place matches Placement::Replace(i) ==> i < scores@.len(),
{
    match near {
        Some(i) => {
            if score > scores[i] {
                Placement::Replace(i)
            } else {
                Placement::Drop
            }
        },
        None => {
            if scores.len() < capacity {
                return Placement::Append;
            }
            if scores.len() == 0 {
                return Placement::Drop;
            }
            let mut low: usize = 0;
            for i in 1..scores.len()
                invariant
                    scores@.len() > 0,
                    low < scores@.len(),
                    low == weakest(scores@, (i - 1) as nat),
            {
                if scores[i] < scores[low] {
                    low = i;
                }
            }
            if score > scores[low] {
                Placement::Replace(low)
            } else {
                Placement::Drop
            }
        },
    }
}

/// The highest score of a list; zero for the empty one.
pub open spec fn top_score(scores: Seq<u32>) -> u32
    decreases scores.len(),
{
    if scores.len() == 0 {
        0
    } else {
        let rest = top_score(scores.drop_last());
        if scores.last() > rest {
            scores.last()
        } else {
            rest
        }
    }
}

pub(crate) proof fn top_score_is_max(scores: Seq<u32>)
    ensures
        forall|i: int| 0 <= i < scores.len() ==> #[trigger] scores[i] <= top_score(scores),
        scores.len() > 0 ==> exists|i: int|
            0 <= i < scores.len() && #[trigger] scores[i] == top_score(scores),
    decreases scores.len(),
{
    if scores.len() > 0 {
        let rest = scores.drop_last();
        top_score_is_max(rest);
        assert forall|i: int| 0 <= i < scores.len() implies #[trigger] scores[i] <= top_score(
            scores,
        ) by {
            if i < rest.len() {
                assert(rest[i] <= top_score(rest));
            }
        }
        if scores.last() > top_score(rest) || rest.len() == 0 {
            assert(scores[scores.len() - 1] == top_score(scores));
        } else {
            let i = choose|i: int| 0 <= i < rest.len() && #[trigger] rest[i] == top_score(rest);
            assert(scores[i] == top_score(scores));
        }
    }
}

proof fn weakest_is_min(scores: Seq<u32>, upto: nat)
    requires
        upto < scores.len(),
    ensures
        0 <= weakest(scores, upto) <= upto,
        forall|i: int| 0 <= i <= upto ==> scores[weakest(scores, upto)] <= #[trigger] scores[i],
    decreases upto,
{
    if upto > 0 {
        weakest_is_min(scores, (upto - 1) as nat);
    }
}

/// Room is kept and the best is never lost: placing a candidate leaves a list
/// within its capacity within it, and the highest score afterwards is the
/// higher of the highest before and the candidate's own.
pub proof fn placing_keeps_the_best(
    scores: Seq<u32>,
    near: Option<int>,
    score: u32,
    capacity: nat,
)
    requires
        near matches Some(i) ==> 0 <= i < scores.len(),
        0 < capacity,
        scores.len() <= capacity,
        scores.len() <= usize::MAX,
    ensures
        placement_of(scores, near, score, capacity) matches Placement::Replace(i) ==> i
            < scores.len(),
        ({
            let after = placed(scores, score, placement_of(scores, near, score, capacity));
            &&& after.len() <= capacity
            &&& top_score(after) == if score > top_score(scores) {
                score
            } else {
                top_score(scores)
            }
        }),
{
    let place = placement_of(scores, near, score, capacity);
    let after = placed(scores, score, place);
    top_score_is_max(scores);
    top_score_is_max(after);
    match place {
        Placement::Drop => {
            if near is None {
                weakest_is_min(scores, (scores.len() - 1) as nat);
            }
        },
        Placement::Replace(k) => {
            if near is None {
                weakest_is_min(scores, (scores.len() - 1) as nat);
            }
            assert(after[k as int] == score);
            if score <= top_score(scores) {
                let i = choose|i: int|
                    0 <= i < scores.len() && #[trigger] scores[i] == top_score(scores);
                assert(after[i] == scores[i]);
            }
            let j = choose|j: int| 0 <= j < after.len() && #[trigger] after[j] == top_score(after);
            assert(j == k || after[j] == scores[j]);
        },
        Placement::Append => {
            assert(after.drop_last() =~= scores);
        },
    }
}

/// Whether the candidate at index `a` comes before the one at `b`: by higher
/// score, and in the order of arrival on equal scores.
pub open spec fn comes_before(scores: Seq<u32>, a: usize, b: usize) -> bool {
    scores[a as int] > scores[b as int] || (scores[a as int] == scores[b as int] && a < b)
}

/// Whether `order` lists the indices of `scores`, each once, best first.
pub open spec fn is_descending_order(order: Seq<usize>, scores: Seq<u32>) -> bool {
    &&& order.len() == scores.len()
    &&& forall|i: int| 0 <= i < order.len() ==> #[trigger] order[i] < scores.len()
    &&& forall|i: int, j: int|
        0 <= i < j < order.len() ==> comes_before(scores, #[trigger] order[i], #[trigger] order[j])
}

/// A burst candidate with a correlation score.
///
/// Correlations are real numbers from zero to one; a score stands for one by
/// an integer that orders the same way.
pub trait Scored: Sized {
    spec fn score_value(self) -> u32;

    fn score(&self) -> (score: u32)
        ensures
            score == self.score_value(),
    ;
}

/// The scores of a list of candidates.
pub open spec fn scores_of<C: Scored>(list: Seq<C>) -> Seq<u32> {
    list.map_values(|c: C| c.score_value())
}

/// The candidates of `list` in the order of the indices `order`.
pub open spec fn reordered<C>(list: Seq<C>, order: Seq<usize>) -> Seq<C> {
    Seq::new(order.len(), |i: int| list[order[i] as int])
}

/// Whether `sorted` holds the candidates of `list` best first, equal scores in
/// the order of arrival.
pub open spec fn is_sorted_from<C: Scored>(sorted: Seq<C>, list: Seq<C>) -> bool {
    exists|order: Seq<usize>|
        #[trigger] is_descending_order(order, scores_of(list)) && sorted == reordered(list, order)
}

/// Sorts candidates best first, equal scores in the order of arrival.
pub fn sort_candidates<C: Scored>(candidates: &mut Vec<C>)
    ensures
        is_sorted_from(final(candidates)@, old(candidates)@),
{
    let total: usize = candidates.len();
    let ghost list = candidates@;
    let ghost scores = scores_of(list);
    let ghost mut order: Seq<usize> = seq![];
    let mut n: usize = 0;
    while n < total
        invariant
            n <= total,
            total == list.len(),
            scores == scores_of(list),
            order.len() == n,
            candidates@ =~= reordered(list, order) + list.skip(n as int),
            forall|i: int| 0 <= i < n ==> #[trigger] order[i] < n,
            forall|i: int, j: int|
                0 <= i < j < n ==> comes_before(scores, #[trigger] order[i], #[trigger] order[j]),
        decreases total - n,
    {
        let score: u32 = candidates[n].score();
        assert(score == scores[n as int]);
        let mut at: usize = 0;
        while at < n && candidates[at].score() >= score
            invariant
                n < total,
                total == list.len(),
                scores == scores_of(list),
                score == scores[n as int],
                order.len() == n,
                at <= n,
                candidates@ =~= reordered(list, order) + list.skip(n as int),
                forall|i: int| 0 <= i < n ==> #[trigger] order[i] < n,
                forall|i: int| 0 <= i < at ==> scores[(#[trigger] order[i]) as int] >= score,
            decreases n - at,
        {
            assert(candidates@[at as int] == list[order[at as int] as int]);
            at = at + 1;
        }
        let ghost before = order;
        if at < n {
            assert(candidates@[at as int] == list[order[at as int] as int]);
        }
        let candidate = candidates.remove(n);
        candidates.insert(at, candidate);
        proof {
            order = order.insert(at as int, n);
            assert forall|i: int, j: int| 0 <= i < j < n + 1 implies comes_before(
                scores,
                #[trigger] order[i],
                #[trigger] order[j],
            ) by {
                let bi = if i < at {
                    i
                } else {
                    i - 1
                };
                let bj = if j < at {
                    j
                } else {
                    j - 1
                };
                if i != at {
                    assert(order[i] == before[bi]);
                }
                if j != at {
                    assert(order[j] == before[bj]);
                }
                if i == at && at < n {
                    assert(scores[before[at as int] as int] < score);
                    if bj > at {
                        assert(comes_before(scores, before[at as int], before[bj]));
                    }
                }
            }
            assert(candidates@ =~= reordered(list, order) + list.skip(n + 1));
        }
        n = n + 1;
    }
    assert(candidates@ =~= reordered(list, order));
    assert(is_descending_order(order, scores));
}

/// There is one best-first listing of a list of candidates.
pub proof fn sorted_listing_is_unique<C: Scored>(a: Seq<C>, b: Seq<C>, list: Seq<C>)
    requires
        is_sorted_from(a, list),
        is_sorted_from(b, list),
        list.len() <= usize::MAX,
    ensures
        a == b,
{
    let scores = scores_of(list);
    let p = choose|order: Seq<usize>|
        #[trigger] is_descending_order(order, scores) && a == reordered(list, order);
    let q = choose|order: Seq<usize>|
        #[trigger] is_descending_order(order, scores) && b == reordered(list, order);
    best_first_order_is_unique(p, q, scores);
}

/// There is one order that lists scores best first.
pub proof fn best_first_order_is_unique(p: Seq<usize>, q: Seq<usize>, scores: Seq<u32>)
    requires
        is_descending_order(p, scores),
        is_descending_order(q, scores),
        scores.len() <= usize::MAX,
    ensures
        p == q,
{
    assert forall|i: int| 0 <= i < p.len() implies p[i] == q[i] by {
        same_index_at(p, q, scores, i);
    }
    assert(p =~= q);
}

proof fn same_index_at(p: Seq<usize>, q: Seq<usize>, scores: Seq<u32>, i: int)
    requires
        is_descending_order(p, scores),
        is_descending_order(q, scores),
        scores.len() <= usize::MAX,
        0 <= i < p.len(),
    ensures
        p[i] == q[i],
    decreases i,
{
    assert forall|j: int| 0 <= j < i implies p[j] == q[j] by {
        same_index_at(p, q, scores, j);
    }
    if p[i] != q[i] {
        descending_order_is_complete(q, scores, p[i]);
        descending_order_is_complete(p, scores, q[i]);
        let at_q = choose|k: int| 0 <= k < q.len() && q[k] == p[i];
        let at_p = choose|k: int| 0 <= k < p.len() && p[k] == q[i];
        assert(at_q > i) by {
            if at_q < i {
                assert(comes_before(scores, p[at_q], p[i]));
            }
        }
        assert(at_p > i) by {
            if at_p < i {
                assert(comes_before(scores, q[at_p], q[i]));
            }
        }
        assert(comes_before(scores, p[i], p[at_p]));
        assert(comes_before(scores, q[i], q[at_q]));
    }
}

/// A best-first listing names every candidate.
pub proof fn descending_order_is_complete(order: Seq<usize>, scores: Seq<u32>, k: usize)
    requires
        is_descending_order(order, scores),
        scores.len() <= usize::MAX,
        k < scores.len(),
    ensures
        order.contains(k),
{
    assert(order.no_duplicates());
    let named = order.to_set();
    order.unique_seq_to_set();
    let all = Set::<usize>::new(|i: usize| i < scores.len());
    index_set_len(scores.len());
    assert(named.subset_of(all));
    if !order.contains(k) {
        assert(named.subset_of(all.remove(k)));
        vstd::set_lib::lemma_len_subset(named, all.remove(k));
    }
}

proof fn index_set_len(n: nat)
    requires
        n <= usize::MAX + 1,
    ensures
        Set::<usize>::new(|i: usize| i < n).finite(),
        Set::<usize>::new(|i: usize| i < n).len() == n,
    decreases n,
{
    let all = Set::<usize>::new(|i: usize| i < n);
    if n == 0 {
        assert(all =~= Set::empty());
    } else {
        let m = (n - 1) as nat;
        index_set_len(m);
        assert(all =~= Set::<usize>::new(|i: usize| i < m).insert(m as usize));
    }
}

/// The ones in a number are the bits that are set in it.
pub proof fn ones_are_set_bits(bits: Seq<bool>)
    ensures
        ones(bits_value(bits)) == weight_of(bits),
    decreases bits.len(),
{
    if bits.len() > 0 {
        ones_are_set_bits(bits.drop_last());
        let v = bits_value(bits);
        assert(v / 2 == bits_value(bits.drop_last()));
    }
}

/// No attempt has fewer syndrome bits set than the best.
pub proof fn best_has_the_fewest_errors<M: PathMetric>(ranks: Seq<Rank<M>>, i: int)
    requires
        0 <= i < ranks.len(),
    ensures
        0 <= best_index(ranks) < ranks.len(),
        ranks[best_index(ranks)].errors <= ranks[i].errors,
    decreases ranks.len(),
{
    best_index_bounds(ranks);
    if ranks.len() > 1 {
        let rest = ranks.drop_last();
        best_index_bounds(rest);
        if i < rest.len() {
            best_has_the_fewest_errors(rest, i);
        } else {
            best_has_the_fewest_errors(rest, 0);
        }
    }
}

/// Of the attempts with as few syndrome bits set as the best none is cheaper,
/// and none of those that came before it is as cheap.
pub proof fn best_is_the_first_of_the_cheapest<M: PathMetric>(ranks: Seq<Rank<M>>, i: int)
    requires
        consistent::<M>(),
        forall|k: int| 0 <= k < ranks.len() ==> (#[trigger] ranks[k]).metric.is_cost(),
        0 <= i < ranks.len(),
        ranks[i].errors == ranks[best_index(ranks)].errors,
    ensures
        !ranks[i].metric.precedes(ranks[best_index(ranks)].metric),
        i < best_index(ranks) ==> ranks[best_index(ranks)].metric.precedes(ranks[i].metric),
    decreases ranks.len(),
{
    best_is_not_outranked(ranks, i);
    if ranks.len() > 1 && i < best_index(ranks) {
        let rest = ranks.drop_last();
        let held = best_index(rest);
        best_has_the_fewest_errors(rest, i);
        best_has_the_fewest_errors(ranks, held);
        if best_index(ranks) == held {
            best_is_the_first_of_the_cheapest(rest, i);
        } else {
            let c = ranks.last().metric;
            let b = ranks[held].metric;
            let a = ranks[i].metric;
            assert(ranks[held].errors == ranks[i].errors);
            best_is_the_first_of_the_cheapest(rest, i);
            assert(!a.precedes(b) && c.precedes(b));
            if !c.precedes(a) {
                assert(!c.precedes(b));
            }
        }
    }
}

/// There is a choice just where there are attempts; where none passed its
/// parity check, no attempt has fewer syndrome bits set than the chosen one.
pub proof fn choice_is_made_among_attempts<M: PathMetric>(ranks: Seq<Rank<M>>, i: int)
    ensures
        chosen(ranks) is None <==> ranks.len() == 0,
        chosen(ranks) matches Some(k) ==> 0 <= k < ranks.len(),
        0 <= i < ranks.len() && (forall|k: int|
            0 <= k < ranks.len() ==> !(#[trigger] ranks[k]).ok) ==> ranks[chosen(ranks)->0].errors
            <= ranks[i].errors,
{
    choice_bounds(ranks);
    if 0 <= i < ranks.len() {
        best_has_the_fewest_errors(ranks, i);
        if forall|k: int| 0 <= k < ranks.len() ==> !(#[trigger] ranks[k]).ok {
            first_ok_skips(ranks, 0, ranks.len() as int);
        }
    }
}

/// A candidate with a neighbour takes its place just where it scores higher,
/// and never joins beside it.
pub proof fn neighbours_do_not_both_stay(
    scores: Seq<u32>,
    near: int,
    score: u32,
    capacity: nat,
)
    requires
        0 <= near < scores.len(),
        scores.len() <= usize::MAX,
    ensures
        ({
            let after = placed(scores, score, placement_of(scores, Some(near), score, capacity));
            &&& after.len() == scores.len()
            &&& after[near] == if score > scores[near] {
                score
            } else {
                scores[near]
            }
            &&& forall|j: int| 0 <= j < scores.len() && j != near ==> after[j] == scores[j]
        }),
{
}

/// A candidate without a neighbour joins while there is room. In a full list it
/// takes the place of the first of the lowest, if it scores higher.
pub proof fn the_weakest_gives_way(scores: Seq<u32>, score: u32, capacity: nat, j: int)
    requires
        scores.len() <= usize::MAX,
    ensures
        ({
            let after = placed(scores, score, placement_of(scores, None, score, capacity));
            &&& scores.len() < capacity ==> after == scores.push(score)
            &&& scores.len() >= capacity ==> after.len() == scores.len()
            &&& scores.len() >= capacity && 0 <= j < scores.len() ==> {
                ||| after[j] == scores[j]
                ||| {
                    &&& after[j] == score
                    &&& score > scores[j]
                    &&& forall|k: int| 0 <= k < scores.len() ==> scores[j] <= #[trigger] scores[k]
                    &&& forall|k: int| 0 <= k < j ==> scores[j] < #[trigger] scores[k]
                    &&& forall|k: int|
                        0 <= k < scores.len() && k != j ==> after[k] == #[trigger] scores[k]
                }
            }
            &&& scores.len() >= capacity && 0 <= j < scores.len() && score > scores[j] ==> exists|
                k: int,
            |
                0 <= k < scores.len() && score > scores[k] && #[trigger] after[k] == score
        }),
{
    let place = placement_of(scores, None, score, capacity);
    let after = placed(scores, score, place);
    if scores.len() >= capacity && scores.len() > 0 {
        let upto = (scores.len() - 1) as nat;
        weakest_is_min(scores, upto);
        weakest_is_first(scores, upto);
        let low = weakest(scores, upto);
        if score > scores[low] {
            assert(after[low] == score);
        }
    }
}

proof fn weakest_is_first(scores: Seq<u32>, upto: nat)
    requires
        upto < scores.len(),
    ensures
        forall|i: int| 0 <= i < weakest(scores, upto) ==> scores[weakest(scores, upto)]
            < #[trigger] scores[i],
    decreases upto,
{
    if upto > 0 {
        weakest_is_first(scores, (upto - 1) as nat);
        weakest_is_min(scores, (upto - 1) as nat);
    }
}

/// An order that lists scores best first never lets a lower score come before a
/// higher one, and leaves equal ones in the order of arrival.
pub proof fn best_first_is_descending(order: Seq<usize>, scores: Seq<u32>, i: int, j: int)
    requires
        is_descending_order(order, scores),
        0 <= i < j < order.len(),
    ensures
        order.len() == scores.len(),
        order[i] < scores.len(),
        order[j] < scores.len(),
        scores[order[i] as int] >= scores[order[j] as int],
        scores[order[i] as int] == scores[order[j] as int] ==> order[i] < order[j],
{
    assert(comes_before(scores, order[i], order[j]));
}

/// Sorting loses nothing: every candidate of the list is in the sorted one, and
/// the other way round, and higher scores come first.
pub proof fn sorting_keeps_the_candidates<C: Scored>(sorted: Seq<C>, list: Seq<C>, i: int, j: int)
    requires
        is_sorted_from(sorted, list),
        list.len() <= usize::MAX,
        0 <= i < list.len(),
        0 <= j < list.len(),
    ensures
        sorted.len() == list.len(),
        sorted.contains(list[i]),
        list.contains(sorted[i]),
        i < j ==> sorted[i].score_value() >= sorted[j].score_value(),
{
    let scores = scores_of(list);
    let order = choose|order: Seq<usize>|
        #[trigger] is_descending_order(order, scores) && sorted == reordered(list, order);
    descending_order_is_complete(order, scores, i as usize);
    let k = choose|k: int| 0 <= k < order.len() && order[k] == i as usize;
    assert(sorted[k] == list[i]);
    assert(sorted[i] == list[order[i] as int]);
    if i < j {
        best_first_is_descending(order, scores, i, j);
        assert(scores[order[i] as int] == sorted[i].score_value());
        assert(scores[order[j] as int] == sorted[j].score_value());
    }
}

/// The top score is one of the scores, and none is higher; without any it is
/// zero.
pub proof fn top_score_is_the_highest(scores: Seq<u32>, i: int)
    ensures
        scores.len() == 0 ==> top_score(scores) == 0,
        0 <= i < scores.len() ==> scores[i] <= top_score(scores),
        scores.len() > 0 ==> scores.contains(top_score(scores)),
{
    top_score_is_max(scores);
    if scores.len() > 0 {
        let k = choose|k: int| 0 <= k < scores.len() && #[trigger] scores[k] == top_score(scores);
        assert(scores[k] == top_score(scores));
    }
}

pub(crate) proof fn first_lowest_is_weakest(scores: Seq<u32>, low: int)
    requires
        0 <= low < scores.len(),
        forall|i: int| 0 <= i < scores.len() ==> scores[low] <= #[trigger] scores[i],
        forall|i: int| 0 <= i < low ==> scores[low] < #[trigger] scores[i],
    ensures
        weakest(scores, (scores.len() - 1) as nat) == low,
{
    let upto = (scores.len() - 1) as nat;
    weakest_is_min(scores, upto);
    weakest_is_first(scores, upto);
    let w = weakest(scores, upto);
    if w < low {
        assert(scores[low] < scores[w]);
    } else if low < w {
        assert(scores[w] < scores[low]);
    }
}

/// Equal scores do not displace: a candidate takes a place only from a weaker
/// one, be that its neighbour or the weakest of a full list.
pub proof fn equal_scores_do_not_displace(
    scores: Seq<u32>,
    near: int,
    score: u32,
    capacity: nat,
)
    requires
        scores.len() <= usize::MAX,
        0 <= near < scores.len(),
    ensures
        score <= scores[near] ==> placement_of(scores, Some(near), score, capacity) is Drop,
        score > scores[near] ==> placement_of(scores, Some(near), score, capacity)
            == Placement::Replace(near as usize),
        scores.len() >= capacity && (forall|k: int|
            0 <= k < scores.len() ==> score <= #[trigger] scores[k]) ==> placement_of(
            scores,
            None,
            score,
            capacity,
        ) is Drop,
        scores.len() >= capacity && score > scores[near] ==> placement_of(
            scores,
            None,
            score,
            capacity,
        ) is Replace,
{
    weakest_is_min(scores, (scores.len() - 1) as nat);
}

} // verus!
