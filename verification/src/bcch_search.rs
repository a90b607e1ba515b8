//! The search for blocks of the broadcast control channel in a symbol stream.

use crate::bcch::{
    bcch_held, bcch_held_chosen, bcch_passed_chosen, bcch_ranks, decode_bcch_block, hold_better,
    xcch_best, BcchDecodeView, GsmBcchDecode,
};
use crate::ranking::{
    best_first_is_descending, best_first_order_is_unique, best_index_bounds,
    choice_is_made_among_attempts, chosen, descending_order_is_complete, first_lowest_is_weakest,
    first_ok_skips, is_descending_order, ones, passing_attempt_is_chosen, place_candidate, placed,
    placement_of, placing_keeps_the_best, reordered, scores_of, sort_candidates, top_score,
    Placement, Scored,
};
use crate::soft::SoftBit;
use crate::symbols::{burst_of, score_of, SymbolStream};
use crate::viterbi::PathMetric;
use vstd::prelude::*;

verus! {

/// Symbols from the start of a normal burst to its training sequence.
pub const NORMAL_TRAINING_OFFSET: usize = 61;

/// Symbols in a frame: a burst of the block comes once in each.
pub const FRAME_SYMBOLS: usize = 1250;

/// The symbol `jitter` symbols after `base`, if there is one.
pub fn apply_symbol_jitter(base: usize, jitter: isize) -> (moved: Option<usize>)
    ensures
        moved == if 0 <= base + jitter <= usize::MAX {
            Some((base + jitter) as usize)
        } else {
            None
        },
{
    base.checked_add_signed(jitter)
}

/// How well the burst at `start` correlates: not at all where the stream does
/// not hold the whole of it.
pub open spec fn burst_score<M, S: SymbolStream<M>>(stream: &S, start: int) -> u32 {
    if start + 148 <= stream.symbols() {
        score_of(stream, start + 61)
    } else {
        0
    }
}

/// The first of the `n` starts from `from` on with the highest score, where
/// that is above zero.
pub open spec fn best_start<M, S: SymbolStream<M>>(stream: &S, from: int, n: nat) -> Option<int>
    decreases n,
{
    if n == 0 {
        None
    } else {
        let held = best_start(stream, from, (n - 1) as nat);
        let start = from + n - 1;
        let bar = match held {
            Some(s) => burst_score(stream, s),
            None => 0,
        };
        if burst_score(stream, start) > bar {
            Some(start)
        } else {
            held
        }
    }
}

/// Where a burst expected at `expected` starts: the best of the starts at most
/// eight symbols away. A burst that is expected sooner than that is not found.
pub open spec fn refined_start<M, S: SymbolStream<M>>(stream: &S, expected: int) -> Option<int> {
    if expected < 8 {
        None
    } else {
        best_start(stream, expected - 8, 17)
    }
}

/// The best start is one of those offered, scores above zero, above every
/// earlier one and no lower than any later one.
pub proof fn best_start_is_highest<M, S: SymbolStream<M>>(
    stream: &S,
    from: int,
    n: nat,
    other: int,
)
    requires
        from <= other < from + n,
    ensures
        match best_start(stream, from, n) {
            Some(s) => {
                &&& from <= s < from + n
                &&& burst_score(stream, s) > 0
                &&& other < s ==> burst_score(stream, other) < burst_score(stream, s)
                &&& burst_score(stream, other) <= burst_score(stream, s)
            },
            None => burst_score(stream, other) == 0,
        },
    decreases n,
{
    if n > 1 {
        let before = if other < from + n - 1 {
            other
        } else {
            from
        };
        best_start_is_highest(stream, from, (n - 1) as nat, before);
    } else {
        assert(best_start(stream, from, 0) is None);
    }
}

proof fn best_start_bounds<M, S: SymbolStream<M>>(stream: &S, from: int, n: nat)
    ensures
        best_start(stream, from, n) matches Some(s) ==> from <= s < from + n && s + 148
            <= stream.symbols(),
    decreases n,
{
    if n > 0 {
        best_start_bounds(stream, from, (n - 1) as nat);
    }
}

/// Finds where a normal burst expected at `expected_start` starts.
pub fn refine_normal_burst_start<M, S: SymbolStream<M>>(symbols: &S, expected_start: usize) -> (r:
    Option<usize>)
    requires
        symbols.training() == 26,
        expected_start + 156 <= usize::MAX,
    ensures
        match (r, refined_start(symbols, expected_start as int)) {
            (Some(start), Some(s)) => start == s && start + 148 <= symbols.symbols(),
            (None, None) => true,
            _ => false,
        },
{
    let first: usize = match apply_symbol_jitter(expected_start, -8) {
        None => {
            return None;
        },
        Some(first) => first,
    };
    let mut best: Option<usize> = None;
    let mut best_score: u32 = 0;
    let count: usize = symbols.symbol_count();
    for n in 0usize..17
        invariant
            symbols.training() == 26,
            count == symbols.symbols(),
            first + 164 <= usize::MAX,
            match (best, best_start(symbols, first as int, n as nat)) {
                (Some(start), Some(s)) => start == s && best_score == burst_score(symbols, s)
                    && start + 148 <= symbols.symbols(),
                (None, None) => best_score == 0,
                _ => false,
            },
    {
        let start: usize = first + n;
        if start + 148 <= count {
            let score: u32 = symbols.correlation(start + NORMAL_TRAINING_OFFSET);
            if score > best_score {
                best_score = score;
                best = Some(start);
            }
        }
    }
    best
}

/// Where data bit `j` of a normal burst stands in it: 57 bits on either side
/// of the training sequence.
pub open spec fn data_position(j: int) -> int {
    if j < 57 {
        3 + j
    } else {
        88 + (j - 57)
    }
}

/// How many of the `count` places from `first` on lie within `len` places,
/// up to the first that does not.
pub open spec fn available(first: int, count: int, len: int) -> int {
    if first < 0 || first >= len {
        0
    } else if first + count <= len {
        count
    } else {
        len - first
    }
}

/// Appends the `count` bits of `src` from `start + shift` on to `dst`, up to
/// the first that is missing.
pub fn copy_shifted_soft<T: Copy>(
    src: &[T],
    start: usize,
    dst: &mut Vec<T>,
    count: usize,
    shift: isize,
) -> (copied: Option<()>)
    requires
        start + count <= isize::MAX,
        start + count + shift <= isize::MAX,
    ensures
        copied is Some <==> available(start + shift, count as int, src@.len() as int) == count,
        final(dst)@ == old(dst)@ + src@.skip(start + shift).take(
            available(start + shift, count as int, src@.len() as int),
        ),
{
    let ghost before = dst@;
    let base: isize = start as isize + shift;
    for i in 0..count
        invariant
            before == old(dst)@,
            start + count <= isize::MAX,
            start + count + shift <= isize::MAX,
            base == start + shift,
            i > 0 ==> base >= 0 && base + i <= src@.len(),
            i > 0 ==> dst@ =~= before + src@.skip(base as int).take(i as int),
            i == 0 ==> dst@ == before,
    {
        let at: isize = base + i as isize;
        if at < 0 || at as usize >= src.len() {
            return None;
        }
        dst.push(src[at as usize]);
    }
    Some(())
}

/// Whether the data bits of a demodulated burst, taken `shift` bits late, are
/// all there.
pub open spec fn burst_readable<M>(burst: Seq<SoftBit<M>>, shift: int) -> bool {
    burst.len() >= 145 && 3 + shift >= 0 && 145 + shift <= burst.len()
}

/// Whether burst `b` of the block that is expected at `burst0` can be read.
pub open spec fn burst_found<M, S: SymbolStream<M>>(
    stream: &S,
    burst0: int,
    shift: int,
    b: int,
) -> bool {
    refined_start(stream, burst0 + 1250 * b) matches Some(s) && burst_readable(
        burst_of(stream, s),
        shift,
    )
}

/// Burst `b` of the block that is expected at `burst0`.
pub open spec fn found_burst<M, S: SymbolStream<M>>(stream: &S, burst0: int, b: int) -> Seq<
    SoftBit<M>,
> {
    burst_of(stream, refined_start(stream, burst0 + 1250 * b)->0)
}

/// The 456 data bits of the block that is expected at `burst0`, if all four of
/// its bursts can be read.
pub open spec fn xcch_block<M, S: SymbolStream<M>>(
    stream: &S,
    burst0: int,
    shift: int,
) -> Option<Seq<SoftBit<M>>> {
    if forall|b: int| 0 <= b < 4 ==> #[trigger] burst_found(stream, burst0, shift, b) {
        Some(
            Seq::new(
                456,
                |p: int| found_burst(stream, burst0, p / 114)[data_position(p % 114) + shift],
            ),
        )
    } else {
        None
    }
}

/// Reads the block that is expected at `burst0`, its bits `bit_shift` late.
pub fn extract_xcch_i_soft<M: PathMetric, S: SymbolStream<M>>(
    symbols: &S,
    burst0: usize,
    bit_shift: isize,
) -> (block: Option<[SoftBit<M>; 456]>)
    requires
        symbols.training() == 26,
        burst0 + 3906 <= usize::MAX,
        bit_shift <= isize::MAX - 145,
    ensures
        match (block, xcch_block(symbols, burst0 as int, bit_shift as int)) {
            (Some(bits), Some(view)) => bits@ == view,
            (None, None) => true,
            _ => false,
        },
{
    let mut bits: Vec<SoftBit<M>> = Vec::with_capacity(456);
    let ghost view = Seq::new(
        456,
        |p: int|
            found_burst(symbols, burst0 as int, p / 114)[data_position(p % 114) + bit_shift],
    );
    for b in 0usize..4
        invariant
            symbols.training() == 26,
            burst0 + 3906 <= usize::MAX,
            bit_shift <= isize::MAX - 145,
            view == Seq::new(
                456,
                |p: int|
                    found_burst(symbols, burst0 as int, p / 114)[data_position(p % 114) + bit_shift],
            ),
            forall|k: int|
                0 <= k < b ==> #[trigger] burst_found(symbols, burst0 as int, bit_shift as int, k),
            bits@ =~= view.take(114 * b),
    {
        let ghost was = bits@;
        let start: usize = match refine_normal_burst_start(symbols, burst0 + b * FRAME_SYMBOLS) {
            None => {
                assert(!burst_found(symbols, burst0 as int, bit_shift as int, b as int));
                return None;
            },
            Some(start) => start,
        };
        let burst = symbols.soft_burst(start);
        assert(burst@ == found_burst(symbols, burst0 as int, b as int));
        if burst.len() < 145 {
            assert(!burst_found(symbols, burst0 as int, bit_shift as int, b as int));
            return None;
        }
        if copy_shifted_soft(burst.as_slice(), 3, &mut bits, 57, bit_shift).is_none()
            || copy_shifted_soft(burst.as_slice(), 88, &mut bits, 57, bit_shift).is_none() {
            assert(!burst_found(symbols, burst0 as int, bit_shift as int, b as int));
            return None;
        }
        assert(burst_found(symbols, burst0 as int, bit_shift as int, b as int));
        assert forall|p: int| 114 * b <= p < 114 * b + 114 implies bits@[p] == view[p] by {
            assert(p / 114 == b && p % 114 == p - 114 * b);
        }
        assert forall|p: int| 0 <= p < 114 * b implies bits@[p] == view[p] by {
            assert(bits@[p] == was[p]);
        }
        assert(bits@ =~= view.take(114 * (b + 1)));
    }
    assert(bits@ =~= view);
    let mut block: [SoftBit<M>; 456] = [bits[0];456];
    for i in 0usize..456
        invariant
            bits@.len() == 456,
            forall|k: int| 0 <= k < i ==> block@[k] == bits@[k],
    {
        block[i] = bits[i];
    }
    assert(block@ =~= view);
    Some(block)
}

/// A block that may be worth decoding.
pub struct BcchBurstCandidate<M> {
    /// Correlation of the burst that led to it.
    pub score: u32,
    /// Symbol at which its first burst is expected.
    pub burst_start: usize,
    /// How many bits late its bits were taken.
    pub bit_shift: isize,
    /// Its bits.
    pub i_soft: [SoftBit<M>; 456],
}

/// Model of [`BcchBurstCandidate`].
pub struct BcchCandidateView<M> {
    pub score: u32,
    pub burst_start: usize,
    pub bit_shift: isize,
    pub block: Seq<SoftBit<M>>,
}

impl<M> View for BcchBurstCandidate<M> {
    type V = BcchCandidateView<M>;

    open spec fn view(&self) -> BcchCandidateView<M> {
        BcchCandidateView {
            score: self.score,
            burst_start: self.burst_start,
            bit_shift: self.bit_shift,
            block: self.i_soft@,
        }
    }
}

impl<M> Scored for BcchBurstCandidate<M> {
    open spec fn score_value(self) -> u32 {
        self.score
    }

    fn score(&self) -> (score: u32) {
        self.score
    }
}

/// The models of a list of candidates.
pub open spec fn candidate_views<M>(list: Seq<BcchBurstCandidate<M>>) -> Seq<
    BcchCandidateView<M>,
> {
    list.map_values(|c: BcchBurstCandidate<M>| c@)
}

/// The scores of a list of candidates.
pub open spec fn view_scores<M>(list: Seq<BcchCandidateView<M>>) -> Seq<u32> {
    list.map_values(|c: BcchCandidateView<M>| c.score)
}

/// Whether two candidates are taken for one block: their bits were taken
/// equally late, and at most sixteen symbols lie between their starts.
pub open spec fn same_block(
    shift_a: isize,
    start_a: usize,
    shift_b: isize,
    start_b: usize,
) -> bool {
    shift_a == shift_b && -16 <= start_a - start_b <= 16
}

/// The first candidate from `from` on that is taken for the same block.
pub open spec fn bcch_neighbour<M>(
    list: Seq<BcchCandidateView<M>>,
    shift: isize,
    start: usize,
    from: int,
) -> Option<int>
    decreases list.len() - from,
{
    if from < 0 || from >= list.len() {
        None
    } else if same_block(list[from].bit_shift, list[from].burst_start, shift, start) {
        Some(from)
    } else {
        bcch_neighbour(list, shift, start, from + 1)
    }
}

/// The list after a candidate was offered to it.
pub open spec fn bcch_offered<M>(
    list: Seq<BcchCandidateView<M>>,
    candidate: BcchCandidateView<M>,
) -> Seq<BcchCandidateView<M>> {
    placed(
        list,
        candidate,
        placement_of(
            view_scores(list),
            bcch_neighbour(list, candidate.bit_shift, candidate.burst_start, 0),
            candidate.score,
            48,
        ),
    )
}

proof fn bcch_neighbour_from<M>(
    list: Seq<BcchCandidateView<M>>,
    shift: isize,
    start: usize,
    to: int,
)
    requires
        0 <= to <= list.len(),
        forall|i: int|
            0 <= i < to ==> !same_block(
                (#[trigger] list[i]).bit_shift,
                list[i].burst_start,
                shift,
                start,
            ),
    ensures
        bcch_neighbour(list, shift, start, 0) == bcch_neighbour(list, shift, start, to),
    decreases to,
{
    if to > 0 {
        bcch_neighbour_from(list, shift, start, to - 1);
    }
}

/// Candidates kept at most.
pub const MAX_BCCH_CANDIDATES: usize = 48;

/// Candidates at most this many symbols apart are taken for one block.
pub const BCCH_SUPPRESSION_SYMBOLS: usize = 16;

/// Offers a candidate to the list: of those taken for one block only the best
/// stays, and a full list gives up its weakest for a better one.
pub fn push_bcch_candidate<M>(
    candidates: &mut Vec<BcchBurstCandidate<M>>,
    candidate: BcchBurstCandidate<M>,
)
    ensures
        candidate_views(final(candidates)@) == bcch_offered(
            candidate_views(old(candidates)@),
            candidate@,
        ),
{
    let start: usize = candidate.burst_start;
    let shift: isize = candidate.bit_shift;
    let ghost views = candidate_views(candidates@);
    let mut near: Option<usize> = None;
    let mut scores: Vec<u32> = Vec::with_capacity(candidates.len());
    for i in 0..candidates.len()
        invariant
            candidates@ == old(candidates)@,
            views == candidate_views(candidates@),
            start == candidate.burst_start,
            shift == candidate.bit_shift,
            scores@ =~= view_scores(views.take(i as int)),
            near matches Some(k) ==> k < i && bcch_neighbour(views, shift, start, 0) == Some(
                k as int,
            ),
            near is None ==> forall|j: int|
                0 <= j < i ==> !same_block(
                    (#[trigger] views[j]).bit_shift,
                    views[j].burst_start,
                    shift,
                    start,
                ),
    {
        let other: usize = candidates[i].burst_start;
        let gap: usize = if other < start {
            start - other
        } else {
            other - start
        };
        assert(views[i as int] == candidates@[i as int]@);
        if near.is_none() && candidates[i].bit_shift == shift && gap <= BCCH_SUPPRESSION_SYMBOLS {
            proof {
                bcch_neighbour_from(views, shift, start, i as int);
            }
            near = Some(i);
        }
        scores.push(candidates[i].score);
    }
    assert(views.take(views.len() as int) =~= views);
    proof {
        if near is None {
            bcch_neighbour_from(views, shift, start, views.len() as int);
        }
    }
    let ghost offered = bcch_offered(views, candidate@);
    match place_candidate(scores.as_slice(), near, candidate.score, MAX_BCCH_CANDIDATES) {
        Placement::Drop => {},
        Placement::Replace(i) => {
            candidates.set(i, candidate);
        },
        Placement::Append => {
            candidates.push(candidate);
        },
    }
    assert(candidate_views(candidates@) =~= offered);
}

proof fn bcch_neighbour_bounds<M>(
    list: Seq<BcchCandidateView<M>>,
    shift: isize,
    start: usize,
    from: int,
)
    ensures
        bcch_neighbour(list, shift, start, from) matches Some(i) ==> 0 <= i < list.len(),
    decreases list.len() - from,
{
    if 0 <= from < list.len() {
        bcch_neighbour_bounds(list, shift, start, from + 1);
    }
}

/// Offering a candidate never lets the list outgrow its bound and never loses
/// the best: the highest score afterwards is the higher of the highest before
/// and the candidate's own.
pub proof fn offering_keeps_the_best<M>(
    list: Seq<BcchCandidateView<M>>,
    candidate: BcchCandidateView<M>,
)
    requires
        list.len() <= 48,
    ensures
        bcch_offered(list, candidate).len() <= 48,
        top_score(view_scores(bcch_offered(list, candidate))) == if candidate.score > top_score(
            view_scores(list),
        ) {
            candidate.score
        } else {
            top_score(view_scores(list))
        },
{
    let scores = view_scores(list);
    let near = bcch_neighbour(list, candidate.bit_shift, candidate.burst_start, 0);
    bcch_neighbour_bounds(list, candidate.bit_shift, candidate.burst_start, 0);
    placing_keeps_the_best(scores, near, candidate.score, 48);
    let place = placement_of(scores, near, candidate.score, 48);
    assert(view_scores(bcch_offered(list, candidate)) =~= placed(scores, candidate.score, place));
}

/// The list after the block expected at `burst0` was offered to it with its
/// bits taken one early, on time and one late, as far as it could be read;
/// the first `n` of these three.
pub open spec fn block_offered<M, S: SymbolStream<M>>(
    stream: &S,
    list: Seq<BcchCandidateView<M>>,
    score: u32,
    burst0: int,
    n: nat,
) -> Seq<BcchCandidateView<M>>
    decreases n,
{
    if n == 0 {
        list
    } else {
        let before = block_offered(stream, list, score, burst0, (n - 1) as nat);
        let shift = n - 2;
        match xcch_block(stream, burst0, shift) {
            None => before,
            Some(block) => bcch_offered(
                before,
                BcchCandidateView {
                    score,
                    burst_start: burst0 as usize,
                    bit_shift: shift as isize,
                    block,
                },
            ),
        }
    }
}

/// Offers the block expected at `burst0` to the list.
pub fn offer_block<M: PathMetric, S: SymbolStream<M>>(
    symbols: &S,
    candidates: &mut Vec<BcchBurstCandidate<M>>,
    score: u32,
    burst0: usize,
)
    requires
        symbols.training() == 26,
        burst0 + 3906 <= usize::MAX,
    ensures
        candidate_views(final(candidates)@) == block_offered(
            symbols,
            candidate_views(old(candidates)@),
            score,
            burst0 as int,
            3,
        ),
{
    let ghost list = candidate_views(candidates@);
    for n in 0usize..3
        invariant
            symbols.training() == 26,
            burst0 + 3906 <= usize::MAX,
            list == candidate_views(old(candidates)@),
            candidate_views(candidates@) == block_offered(
                symbols,
                list,
                score,
                burst0 as int,
                n as nat,
            ),
    {
        let bit_shift: isize = n as isize - 1;
        match extract_xcch_i_soft(symbols, burst0, bit_shift) {
            None => {},
            Some(i_soft) => {
                push_bcch_candidate(
                    candidates,
                    BcchBurstCandidate { score, burst_start: burst0, bit_shift, i_soft },
                );
            },
        }
    }
}

/// The decoded blocks of the first `n` candidates, as far as they decode.
pub open spec fn block_attempts<M: PathMetric>(list: Seq<BcchCandidateView<M>>, n: nat) -> Seq<
    BcchDecodeView<M>,
>
    decreases n,
{
    if n == 0 {
        seq![]
    } else {
        let before = block_attempts(list, (n - 1) as nat);
        match xcch_best(list[n - 1].block) {
            None => before,
            Some(decode) => before.push(decode),
        }
    }
}

/// The decoded block that is reported: the first in the list that passes its
/// parity check, else the best.
pub open spec fn block_choice<M: PathMetric>(list: Seq<BcchCandidateView<M>>) -> Option<
    BcchDecodeView<M>,
> {
    let attempts = block_attempts(list, list.len());
    match chosen(bcch_ranks(attempts)) {
        None => None,
        Some(i) => Some(attempts[i]),
    }
}

/// Whether `decode` is what is reported of the candidates, taken best first.
pub open spec fn is_reported<M: PathMetric>(
    decode: Option<GsmBcchDecode<M>>,
    candidates: Seq<BcchCandidateView<M>>,
) -> bool {
    exists|order: Seq<usize>|
        {
            &&& #[trigger] is_descending_order(order, view_scores(candidates))
            &&& match (decode, block_choice(reordered(candidates, order))) {
                (Some(d), Some(view)) => d@ == view,
                (None, None) => true,
                _ => false,
            }
        }
}

proof fn attempts_extend<M: PathMetric>(list: Seq<BcchCandidateView<M>>, n: nat, m: nat)
    requires
        n <= m,
    ensures
        block_attempts(list, n).is_prefix_of(block_attempts(list, m)),
    decreases m - n,
{
    if n < m {
        attempts_extend(list, n, (m - 1) as nat);
    }
}

/// Decodes candidates in turn: the first that passes its parity check is
/// reported, else the best of all.
pub fn decode_bcch_candidates<M: PathMetric>(candidates: &[BcchBurstCandidate<M>]) -> (decode:
    Option<GsmBcchDecode<M>>)
    ensures
        match (decode, block_choice(candidate_views(candidates@))) {
            (Some(d), Some(view)) => d@ == view,
            (None, None) => true,
            _ => false,
        },
{
    let ghost views = candidate_views(candidates@);
    let ghost all = block_attempts(views, views.len());
    let mut held: Option<GsmBcchDecode<M>> = None;
    for n in 0..candidates.len()
        invariant
            views == candidate_views(candidates@),
            all == block_attempts(views, views.len()),
            bcch_held(block_attempts(views, n as nat), held),
    {
        let ghost attempts = block_attempts(views, n as nat);
        assert(views[n as int] == candidates@[n as int]@);
        match decode_bcch_candidate(&candidates[n]) {
            None => {
                assert(block_attempts(views, (n + 1) as nat) == attempts);
            },
            Some(decode) => {
                assert(block_attempts(views, (n + 1) as nat) == attempts.push(decode@));
                if decode.parity_ok {
                    proof {
                        attempts_extend(views, (n + 1) as nat, views.len());
                        bcch_passed_chosen(all, attempts, held, decode@);
                    }
                    return Some(decode);
                }
                held = hold_better(held, decode, Ghost(attempts));
            },
        }
    }
    proof {
        bcch_held_chosen(all, held);
        if all.len() > 0 {
            best_index_bounds(bcch_ranks(all));
        }
    }
    held
}

/// Decodes the block of a candidate.
pub fn decode_bcch_candidate<M: PathMetric>(candidate: &BcchBurstCandidate<M>) -> (decode: Option<
    GsmBcchDecode<M>,
>)
    ensures
        match (decode, xcch_best(candidate@.block)) {
            (Some(d), Some(view)) => d@ == view,
            (None, None) => true,
            _ => false,
        },
{
    decode_bcch_block(&candidate.i_soft)
}

/// Decodes candidates best first.
pub fn report_bcch<M: PathMetric>(candidates: Vec<BcchBurstCandidate<M>>) -> (decode: Option<
    GsmBcchDecode<M>,
>)
    ensures
        is_reported(decode, candidate_views(candidates@)),
{
    let ghost list = candidates@;
    let ghost views = candidate_views(list);
    let mut sorted = candidates;
    sort_candidates(&mut sorted);
    let decode = decode_bcch_candidates(sorted.as_slice());
    proof {
        let order = choose|order: Seq<usize>|
            #[trigger] is_descending_order(order, scores_of(list)) && sorted@ == reordered(
                list,
                order,
            );
        assert(scores_of(list) =~= view_scores(views));
        assert(candidate_views(sorted@) =~= reordered(views, order));
        assert(is_descending_order(order, view_scores(views)));
    }
    decode
}

/// The frames, counted from that of a synchronisation burst, in which a block
/// may begin.
pub const FRAME_DELTAS: [isize; 28] = [
    -41,
    -31,
    -25,
    -21,
    -15,
    -11,
    -10,
    -9,
    -8,
    -7,
    -6,
    -5,
    -4,
    -3,
    -2,
    -1,
    1,
    2,
    3,
    4,
    5,
    6,
    7,
    8,
    9,
    10,
    11,
    15,
];

/// Where place `p` of the schedule expects the first burst of a block, when
/// the synchronisation burst starts at `sch_start`: five places for each
/// frame, from two symbols early to two late.
pub open spec fn scheduled_start(sch_start: int, p: int) -> int {
    sch_start + FRAME_DELTAS@[p / 5] * 1250 + p % 5 - 2
}

/// Whether the stream holds the whole of a block that starts at `burst0`.
pub open spec fn block_fits<M, S: SymbolStream<M>>(stream: &S, burst0: int) -> bool {
    0 <= burst0 && burst0 + 3898 <= stream.symbols()
}

/// The highest score at the first `n` places of the schedule.
pub open spec fn schedule_best<M, S: SymbolStream<M>>(stream: &S, sch_start: int, n: nat) -> u32
    decreases n,
{
    if n == 0 {
        0
    } else {
        let before = schedule_best(stream, sch_start, (n - 1) as nat);
        let burst0 = scheduled_start(sch_start, n - 1);
        if block_fits(stream, burst0) && score_of(stream, burst0 + 61) > before {
            score_of(stream, burst0 + 61)
        } else {
            before
        }
    }
}

/// The candidates of the first `n` places of the schedule: the blocks whose
/// first burst scores at least `bar`.
pub open spec fn schedule_list<M, S: SymbolStream<M>>(
    stream: &S,
    sch_start: int,
    bar: u32,
    n: nat,
) -> Seq<BcchCandidateView<M>>
    decreases n,
{
    if n == 0 {
        seq![]
    } else {
        let before = schedule_list(stream, sch_start, bar, (n - 1) as nat);
        let burst0 = scheduled_start(sch_start, n - 1);
        let score = score_of(stream, burst0 + 61);
        if block_fits(stream, burst0) && score >= bar {
            block_offered(stream, before, score, burst0, 3)
        } else {
            before
        }
    }
}

/// Looks for a block where the timing of a synchronisation burst that starts
/// at symbol `sch_start` puts one. Gives the best correlation, whether it
/// reaches `threshold`, and, if asked for, the decoded block; blocks whose
/// first burst scores at least `bar` are decoded. Nothing is looked for in
/// fewer than 150 symbols.
pub fn decode_bcch_from_sch_timing<M: PathMetric, S: SymbolStream<M>>(
    symbols: &S,
    sch_start: isize,
    bar: u32,
    threshold: u32,
    decode_blocks: bool,
) -> (found: (Option<u32>, bool, Option<GsmBcchDecode<M>>))
    requires
        symbols.training() == 26,
        isize::MIN + 51252 <= sch_start <= isize::MAX - 18752,
    ensures
        symbols.symbols() <= 149 ==> found == (None::<u32>, false, None::<GsmBcchDecode<M>>),
        symbols.symbols() > 149 ==> {
            let best = schedule_best(symbols, sch_start as int, 140);
            &&& found.0 == Some(best)
            &&& found.1 == (best >= threshold)
            &&& if decode_blocks {
                is_reported(found.2, schedule_list(symbols, sch_start as int, bar, 140))
            } else {
                found.2 is None
            }
        },
        found.0 matches Some(best) ==> best <= symbols.full_score(),
{
    let count: usize = symbols.symbol_count();
    if count <= 149 {
        return (None, false, None);
    }
    let mut best: u32 = 0;
    let mut candidates: Vec<BcchBurstCandidate<M>> = Vec::new();
    assert(candidate_views(candidates@) =~= schedule_list(symbols, sch_start as int, bar, 0));
    for p in 0usize..140
        invariant
            symbols.training() == 26,
            count == symbols.symbols(),
            isize::MIN + 51252 <= sch_start <= isize::MAX - 18752,
            best == schedule_best(symbols, sch_start as int, p as nat),
            best <= symbols.full_score(),
            candidate_views(candidates@) == schedule_list(
                symbols,
                sch_start as int,
                bar,
                p as nat,
            ),
    {
        let delta: isize = FRAME_DELTAS[p / 5];
        assert(-41 <= delta <= 15);
        let burst0: isize = sch_start + delta * 1250 + ((p % 5) as isize - 2);
        assert(burst0 == scheduled_start(sch_start as int, p as int));
        if burst0 >= 0 && burst0 as usize + 3898 <= count {
            let start: usize = burst0 as usize;
            let score: u32 = symbols.correlation(start + NORMAL_TRAINING_OFFSET);
            if score > best {
                best = score;
            }
            if score >= bar {
                offer_block(symbols, &mut candidates, score, start);
            }
        }
    }
    if !decode_blocks {
        return (Some(best), best >= threshold, None);
    }
    (Some(best), best >= threshold, report_bcch(candidates))
}

/// Where alignment `k` of a burst found at `burst_start` puts the first burst
/// of its block: the burst may be any of the four, and up to two symbols early
/// or late.
pub open spec fn aligned_start(burst_start: int, k: int) -> Option<int> {
    let base = burst_start - 1250 * (k / 5);
    let start = base + k % 5 - 2;
    if base >= 0 && start >= 0 {
        Some(start)
    } else {
        None
    }
}

/// The list after the first `n` alignments of a burst were offered to it.
pub open spec fn alignments_offered<M, S: SymbolStream<M>>(
    stream: &S,
    list: Seq<BcchCandidateView<M>>,
    score: u32,
    burst_start: int,
    n: nat,
) -> Seq<BcchCandidateView<M>>
    decreases n,
{
    if n == 0 {
        list
    } else {
        let before = alignments_offered(stream, list, score, burst_start, (n - 1) as nat);
        match aligned_start(burst_start, n - 1) {
            None => before,
            Some(start) => block_offered(stream, before, score, start, 3),
        }
    }
}

/// Offers all the alignments of a burst found at `burst_start` to the list.
pub fn offer_alignments<M: PathMetric, S: SymbolStream<M>>(
    symbols: &S,
    candidates: &mut Vec<BcchBurstCandidate<M>>,
    score: u32,
    burst_start: usize,
)
    requires
        symbols.training() == 26,
        burst_start + 3908 <= usize::MAX,
    ensures
        candidate_views(final(candidates)@) == alignments_offered(
            symbols,
            candidate_views(old(candidates)@),
            score,
            burst_start as int,
            20,
        ),
{
    let ghost list = candidate_views(candidates@);
    for k in 0usize..20
        invariant
            symbols.training() == 26,
            burst_start + 3908 <= usize::MAX,
            list == candidate_views(old(candidates)@),
            candidate_views(candidates@) == alignments_offered(
                symbols,
                list,
                score,
                burst_start as int,
                k as nat,
            ),
    {
        match burst_start.checked_sub((k / 5) * FRAME_SYMBOLS) {
            None => {},
            Some(base) => {
                match apply_symbol_jitter(base, (k % 5) as isize - 2) {
                    None => {},
                    Some(start) => {
                        offer_block(symbols, candidates, score, start);
                    },
                }
            },
        }
    }
}

/// The highest of `best` and the scores of the first `n` symbols.
pub open spec fn scan_best<M, S: SymbolStream<M>>(stream: &S, best: u32, n: nat) -> u32
    decreases n,
{
    if n == 0 {
        best
    } else {
        let before = scan_best(stream, best, (n - 1) as nat);
        let score = score_of(stream, n - 1);
        if score > before {
            score
        } else {
            before
        }
    }
}

/// The list after a scan of the first `n` symbols: every alignment of every
/// burst that scores at least `bar` was offered to it.
pub open spec fn scan_list<M, S: SymbolStream<M>>(
    stream: &S,
    list: Seq<BcchCandidateView<M>>,
    bar: u32,
    n: nat,
) -> Seq<BcchCandidateView<M>>
    decreases n,
{
    if n == 0 {
        list
    } else {
        let before = scan_list(stream, list, bar, (n - 1) as nat);
        let score = score_of(stream, n - 1);
        if score >= bar && n - 1 >= 61 {
            alignments_offered(stream, before, score, n - 1 - 61, 20)
        } else {
            before
        }
    }
}

/// How many places of a stream a scan looks at: none where it cannot hold a
/// block whichever of its bursts was found.
pub open spec fn scan_places<M, S: SymbolStream<M>>(stream: &S) -> nat {
    if stream.symbols() <= 5148 {
        0
    } else {
        (stream.symbols() - 25) as nat
    }
}

/// The highest score in the first `n` streams.
pub open spec fn trials_best<M, S: SymbolStream<M>>(trials: Seq<S>, n: nat) -> u32
    decreases n,
{
    if n == 0 {
        0
    } else {
        let stream = trials[n - 1];
        scan_best(&stream, trials_best(trials, (n - 1) as nat), scan_places(&stream))
    }
}

/// The candidates of the first `n` streams.
pub open spec fn trials_list<M, S: SymbolStream<M>>(trials: Seq<S>, bar: u32, n: nat) -> Seq<
    BcchCandidateView<M>,
>
    decreases n,
{
    if n == 0 {
        seq![]
    } else {
        let stream = trials[n - 1];
        scan_list(&stream, trials_list(trials, bar, (n - 1) as nat), bar, scan_places(&stream))
    }
}

/// Scans one stream.
pub fn scan_trial<M: PathMetric, S: SymbolStream<M>>(
    symbols: &S,
    best: u32,
    candidates: &mut Vec<BcchBurstCandidate<M>>,
    bar: u32,
    decode_blocks: bool,
) -> (highest: u32)
    requires
        symbols.training() == 26,
        symbols.symbols() + 4000 <= usize::MAX,
    ensures
        highest == scan_best(symbols, best, scan_places(symbols)),
        decode_blocks ==> candidate_views(final(candidates)@) == scan_list(
            symbols,
            candidate_views(old(candidates)@),
            bar,
            scan_places(symbols),
        ),
        !decode_blocks ==> final(candidates)@ == old(candidates)@,
        highest == best || highest <= symbols.full_score(),
{
    let count: usize = symbols.symbol_count();
    if count <= 5148 {
        return best;
    }
    let places: usize = count - 25;
    let ghost list = candidate_views(candidates@);
    let mut highest: u32 = best;
    for at in 0..places
        invariant
            symbols.training() == 26,
            symbols.symbols() + 4000 <= usize::MAX,
            count == symbols.symbols(),
            count > 5148,
            places == count - 25,
            list == candidate_views(old(candidates)@),
            highest == scan_best(symbols, best, at as nat),
            decode_blocks ==> candidate_views(candidates@) == scan_list(
                symbols,
                list,
                bar,
                at as nat,
            ),
            !decode_blocks ==> candidates@ == old(candidates)@,
            highest == best || highest <= symbols.full_score(),
    {
        let score: u32 = symbols.correlation(at);
        if score > highest {
            highest = score;
        }
        if decode_blocks && score >= bar && at >= NORMAL_TRAINING_OFFSET {
            offer_alignments(symbols, candidates, score, at - NORMAL_TRAINING_OFFSET);
        }
    }
    highest
}

/// Whether `full` bounds what a perfect correlation scores in the streams.
pub open spec fn scores_within<M, S: SymbolStream<M>>(trials: Seq<S>, full: u32) -> bool {
    forall|i: int| 0 <= i < trials.len() ==> (#[trigger] trials[i]).full_score() <= full
}

/// Looks for a block anywhere in streams sampled at different phases. Gives
/// the best correlation, whether it reaches `threshold`, and, if asked for,
/// the decoded block; bursts that score at least `bar` lead to blocks that are
/// decoded.
pub fn estimate_bcch_normal_burst<M: PathMetric, S: SymbolStream<M>>(
    trials: &[S],
    bar: u32,
    threshold: u32,
    decode_blocks: bool,
) -> (found: (Option<u32>, bool, Option<GsmBcchDecode<M>>))
    requires
        forall|i: int|
            0 <= i < trials@.len() ==> (#[trigger] trials@[i]).training() == 26
                && trials@[i].symbols() + 4000 <= usize::MAX,
    ensures
        ({
            let best = trials_best(trials@, trials@.len());
            &&& found.0 == Some(best)
            &&& found.1 == (best >= threshold)
            &&& if decode_blocks {
                is_reported(found.2, trials_list(trials@, bar, trials@.len()))
            } else {
                found.2 is None
            }
        }),
        forall|full: u32| #[trigger] scores_within::<M, S>(trials@, full) ==> found.0->0 <= full,
{
    let mut best: u32 = 0;
    let mut candidates: Vec<BcchBurstCandidate<M>> = Vec::new();
    assert(candidate_views(candidates@) =~= trials_list(trials@, bar, 0));
    for n in 0..trials.len()
        invariant
            forall|i: int|
                0 <= i < trials@.len() ==> (#[trigger] trials@[i]).training() == 26
                    && trials@[i].symbols() + 4000 <= usize::MAX,
            best == trials_best(trials@, n as nat),
            forall|full: u32| #[trigger] scores_within::<M, S>(trials@, full) ==> best <= full,
            decode_blocks ==> candidate_views(candidates@) == trials_list(trials@, bar, n as nat),
            !decode_blocks ==> candidates@.len() == 0,
    {
        let ghost stream = trials@[n as int];
        assert(stream.training() == 26);
        best = scan_trial(&trials[n], best, &mut candidates, bar, decode_blocks);
    }
    let decode = report_bcch(candidates);
    proof {
        if !decode_blocks {
            nothing_reported(decode, candidate_views(candidates@));
        }
    }
    (Some(best), best >= threshold, decode)
}

proof fn nothing_reported<M: PathMetric>(
    decode: Option<GsmBcchDecode<M>>,
    candidates: Seq<BcchCandidateView<M>>,
)
    requires
        is_reported(decode, candidates),
        candidates.len() == 0,
    ensures
        decode is None,
{
    let order = choose|order: Seq<usize>|
        {
            &&& #[trigger] is_descending_order(order, view_scores(candidates))
            &&& match (decode, block_choice(reordered(candidates, order))) {
                (Some(d), Some(view)) => d@ == view,
                (None, None) => true,
                _ => false,
            }
        };
    let none = reordered(candidates, order);
    assert(none.len() == 0);
    let ranks = bcch_ranks(block_attempts(none, 0));
    assert(ranks.len() == 0);
    assert(chosen(ranks) is None);
}

/// How a block is to be looked for.
#[derive(Clone, Copy, PartialEq, Eq, Structural, Debug)]
pub enum BcchPlan {
    /// Not at all.
    Nothing,
    /// Where the timing of a synchronisation burst puts it.
    FollowTiming,
    /// Everywhere, without decoding.
    Scan,
}

/// Samples below which nothing is looked for.
pub const MIN_SEARCH_SAMPLES: usize = 256;

/// Decides how a block is looked for: not at all in too short a recording, at
/// a sample rate that is not positive or below the symbol rate, or for a
/// colour code that there is no training sequence for; else by the timing of
/// the synchronisation burst where both its place and its phase are known.
pub fn bcch_plan(
    offset_known: bool,
    phase_known: bool,
    samples: usize,
    rate_positive: bool,
    symbol_rate_met: bool,
    bcc: u8,
) -> (plan: BcchPlan)
    ensures
        plan == if samples < 256 || !rate_positive || bcc > 7 || !symbol_rate_met {
            BcchPlan::Nothing
        } else if offset_known && phase_known {
            BcchPlan::FollowTiming
        } else {
            BcchPlan::Scan
        },
{
    if samples < MIN_SEARCH_SAMPLES || !rate_positive || bcc > 7 || !symbol_rate_met {
        BcchPlan::Nothing
    } else if offset_known && phase_known {
        BcchPlan::FollowTiming
    } else {
        BcchPlan::Scan
    }
}

/// What is reported of the candidates is determined by them.
pub proof fn report_is_unique<M: PathMetric>(
    a: Option<GsmBcchDecode<M>>,
    b: Option<GsmBcchDecode<M>>,
    candidates: Seq<BcchCandidateView<M>>,
)
    requires
        is_reported(a, candidates),
        is_reported(b, candidates),
        candidates.len() <= usize::MAX,
    ensures
        match (a, b) {
            (Some(x), Some(y)) => x@ == y@,
            (None, None) => true,
            _ => false,
        },
{
    let scores = view_scores(candidates);
    let p = choose|order: Seq<usize>|
        {
            &&& #[trigger] is_descending_order(order, scores)
            &&& match (a, block_choice(reordered(candidates, order))) {
                (Some(d), Some(view)) => d@ == view,
                (None, None) => true,
                _ => false,
            }
        };
    let q = choose|order: Seq<usize>|
        {
            &&& #[trigger] is_descending_order(order, scores)
            &&& match (b, block_choice(reordered(candidates, order))) {
                (Some(d), Some(view)) => d@ == view,
                (None, None) => true,
                _ => false,
            }
        };
    best_first_order_is_unique(p, q, scores);
}

proof fn passing_attempt_is_listed<M: PathMetric>(
    list: Seq<BcchCandidateView<M>>,
    n: nat,
    i: int,
)
    requires
        0 <= i < n,
        xcch_best(list[i].block) matches Some(d) && d.parity_ok,
    ensures
        exists|j: int|
            0 <= j < block_attempts(list, n).len() && (#[trigger] block_attempts(
                list,
                n,
            )[j]).parity_ok,
    decreases n,
{
    let attempts = block_attempts(list, n);
    let before = block_attempts(list, (n - 1) as nat);
    if i == n - 1 {
        assert(attempts[before.len() as int].parity_ok);
    } else {
        passing_attempt_is_listed(list, (n - 1) as nat, i);
        let j = choose|j: int| 0 <= j < before.len() && (#[trigger] before[j]).parity_ok;
        assert(attempts[j] == before[j]);
    }
}

/// A good block is not lost: where one of the candidates passes its parity
/// check, what is reported passes it.
pub proof fn passing_block_is_reported<M: PathMetric>(list: Seq<BcchCandidateView<M>>, i: int)
    requires
        0 <= i < list.len(),
        xcch_best(list[i].block) matches Some(d) && d.parity_ok,
    ensures
        block_choice(list) matches Some(d) && d.parity_ok,
{
    passing_attempt_is_listed(list, list.len(), i);
    let attempts = block_attempts(list, list.len());
    let j = choose|j: int| 0 <= j < attempts.len() && (#[trigger] attempts[j]).parity_ok;
    let ranks = bcch_ranks(attempts);
    assert(ranks[j].ok);
    passing_attempt_is_chosen(ranks, j);
}

/// The score of a scan is the highest there is.
pub proof fn scan_best_is_highest<M, S: SymbolStream<M>>(stream: &S, best: u32, n: nat, at: int)
    requires
        0 <= at < n,
    ensures
        scan_best(stream, best, n) >= best,
        scan_best(stream, best, n) >= score_of(stream, at),
        scan_best(stream, best, n) == best || exists|k: int|
            0 <= k < n && scan_best(stream, best, n) == #[trigger] score_of(stream, k),
    decreases n,
{
    assert(scan_best(stream, best, 0) == best);
    if n > 1 {
        let before = if at < n - 1 {
            at
        } else {
            0
        };
        scan_best_is_highest(stream, best, (n - 1) as nat, before);
    }
    assert(score_of(stream, n - 1) == score_of(stream, n - 1));
}

/// The score of a schedule is the highest at its places.
pub proof fn schedule_best_is_highest<M, S: SymbolStream<M>>(
    stream: &S,
    sch_start: int,
    n: nat,
    p: int,
)
    requires
        0 <= p < n,
        block_fits(stream, scheduled_start(sch_start, p)),
    ensures
        schedule_best(stream, sch_start, n) >= score_of(stream, scheduled_start(sch_start, p) + 61),
    decreases n,
{
    if p < n - 1 {
        schedule_best_is_highest(stream, sch_start, (n - 1) as nat, p);
    }
}

/// A burst is found at the best of the starts within eight symbols of where it
/// is expected: no start there at which the stream holds it correlates better,
/// and none before it as well. Where none correlates there is none.
pub proof fn burst_is_found_within_eight_symbols<M, S: SymbolStream<M>>(
    stream: &S,
    expected: int,
    other: int,
)
    requires
        expected >= 8,
        expected - 8 <= other <= expected + 8,
        other + 148 <= stream.symbols(),
    ensures
        match refined_start(stream, expected) {
            Some(s) => {
                &&& expected - 8 <= s <= expected + 8
                &&& s + 148 <= stream.symbols()
                &&& stream.score_at((s + 61) as usize) > 0
                &&& stream.score_at((other + 61) as usize) <= stream.score_at((s + 61) as usize)
                &&& other < s ==> stream.score_at((other + 61) as usize) < stream.score_at(
                    (s + 61) as usize,
                )
            },
            None => stream.score_at((other + 61) as usize) == 0,
        },
{
    best_start_is_highest(stream, expected - 8, 17, other);
    best_start_bounds(stream, expected - 8, 17);
}

/// A burst that is expected too early, or that no start leaves room for, is not
/// found.
pub proof fn burst_needs_room<M, S: SymbolStream<M>>(stream: &S, expected: int)
    requires
        expected < 8 || expected - 8 + 148 > stream.symbols(),
    ensures
        refined_start(stream, expected) is None,
{
    if expected >= 8 {
        best_start_bounds(stream, expected - 8, 17);
    }
}

/// A block is read where each of its four bursts, one frame after the other, is
/// found and long enough for its data bits, taken late by `shift`.
pub proof fn block_needs_four_bursts<M, S: SymbolStream<M>>(
    stream: &S,
    burst0: int,
    shift: int,
    starts: Seq<int>,
)
    requires
        starts.len() == 4,
        forall|b: int|
            0 <= b < 4 ==> refined_start(stream, burst0 + 1250 * b) == Some(#[trigger] starts[b]),
    ensures
        xcch_block(stream, burst0, shift) is Some <==> forall|b: int|
            0 <= b < 4 ==> {
                let len = stream.burst_at(#[trigger] starts[b] as usize)@.len();
                len >= 145 && 3 + shift >= 0 && 145 + shift <= len
            },
{
    if xcch_block(stream, burst0, shift) is Some {
        assert forall|b: int| 0 <= b < 4 implies {
            let len = stream.burst_at(#[trigger] starts[b] as usize)@.len();
            len >= 145 && 3 + shift >= 0 && 145 + shift <= len
        } by {
            assert(burst_found(stream, burst0, shift, b));
            assert(refined_start(stream, burst0 + 1250 * b) == Some(starts[b]));
        }
    } else {
        let b = choose|b: int| 0 <= b < 4 && !#[trigger] burst_found(stream, burst0, shift, b);
        assert(refined_start(stream, burst0 + 1250 * b) == Some(starts[b]));
    }
}

/// The data bits of a block are those on either side of the training sequences
/// of its four bursts, 57 and 57 of each, taken late by `shift`.
pub proof fn block_bits_surround_the_training<M, S: SymbolStream<M>>(
    stream: &S,
    burst0: int,
    shift: int,
    b: int,
    start: int,
    j: int,
)
    requires
        xcch_block(stream, burst0, shift) is Some,
        0 <= b < 4,
        refined_start(stream, burst0 + 1250 * b) == Some(start),
        0 <= j < 57,
    ensures
        ({
            let block = xcch_block(stream, burst0, shift)->0;
            let burst = stream.burst_at(start as usize)@;
            &&& block.len() == 456
            &&& block[114 * b + j] == burst[3 + j + shift]
            &&& block[114 * b + 57 + j] == burst[88 + j + shift]
        }),
{
    let p = 114 * b + j;
    let q = 114 * b + 57 + j;
    assert(p / 114 == b && p % 114 == j);
    assert(q / 114 == b && q % 114 == 57 + j);
}

/// Copying takes the bits from the shifted start on, up to the first that is
/// missing.
pub proof fn copying_stops_at_what_is_missing(first: int, count: int, len: int, i: int)
    requires
        0 <= count,
        0 <= len,
    ensures
        0 <= available(first, count, len) <= count,
        0 <= i < available(first, count, len) ==> 0 <= first + i < len,
        available(first, count, len) < count ==> {
            let missing = first + available(first, count, len);
            missing < 0 || missing >= len
        },
{
}

proof fn neighbour_is_first<M>(
    list: Seq<BcchCandidateView<M>>,
    shift: isize,
    start: usize,
    from: int,
    near: int,
)
    requires
        0 <= from <= near < list.len(),
        same_block(list[near].bit_shift, list[near].burst_start, shift, start),
        forall|i: int|
            from <= i < near ==> !same_block(
                (#[trigger] list[i]).bit_shift,
                list[i].burst_start,
                shift,
                start,
            ),
    ensures
        bcch_neighbour(list, shift, start, from) == Some(near),
    decreases near - from,
{
    if from < near {
        neighbour_is_first(list, shift, start, from + 1, near);
    }
}

/// Of candidates for one block, whose bits were taken equally late and which
/// start at most sixteen symbols apart, the better one stays; the others are
/// not touched.
pub proof fn one_block_has_one_candidate<M>(
    list: Seq<BcchCandidateView<M>>,
    candidate: BcchCandidateView<M>,
    near: int,
    other: int,
)
    requires
        list.len() <= 48,
        0 <= near < list.len(),
        list[near].bit_shift == candidate.bit_shift,
        -16 <= list[near].burst_start - candidate.burst_start <= 16,
        forall|i: int|
            0 <= i < near ==> (#[trigger] list[i]).bit_shift != candidate.bit_shift || !(-16
                <= list[i].burst_start - candidate.burst_start <= 16),
        0 <= other < list.len(),
    ensures
        bcch_offered(list, candidate).len() == list.len(),
        bcch_offered(list, candidate)[other] == if other == near && candidate.score
            > list[near].score {
            candidate
        } else {
            list[other]
        },
{
    neighbour_is_first(list, candidate.bit_shift, candidate.burst_start, 0, near);
}

/// A candidate for another block joins while there are fewer than 48; then it
/// takes the place of the first of the weakest, if it is better.
pub proof fn another_block_has_its_own_candidate<M>(
    list: Seq<BcchCandidateView<M>>,
    candidate: BcchCandidateView<M>,
    low: int,
)
    requires
        list.len() <= 48,
        forall|i: int|
            0 <= i < list.len() ==> (#[trigger] list[i]).bit_shift != candidate.bit_shift || !(-16
                <= list[i].burst_start - candidate.burst_start <= 16),
        list.len() == 48 ==> 0 <= low < 48,
        list.len() == 48 ==> forall|i: int|
            0 <= i < 48 ==> list[low].score <= (#[trigger] list[i]).score,
        list.len() == 48 ==> forall|i: int|
            0 <= i < low ==> list[low].score < (#[trigger] list[i]).score,
    ensures
        bcch_offered(list, candidate) == if list.len() < 48 {
            list.push(candidate)
        } else if candidate.score > list[low].score {
            list.update(low, candidate)
        } else {
            list
        },
{
    bcch_neighbour_from(list, candidate.bit_shift, candidate.burst_start, list.len() as int);
    if list.len() == 48 {
        let scores = view_scores(list);
        assert forall|i: int| 0 <= i < 48 implies scores[low] <= #[trigger] scores[i] by {
            assert(list[i].score == scores[i]);
        }
        assert forall|i: int| 0 <= i < low implies scores[low] < #[trigger] scores[i] by {
            assert(list[i].score == scores[i]);
        }
        first_lowest_is_weakest(scores, low);
    }
}

/// What the list holds after an offer was in it before, or is what was offered.
proof fn offered_members<M>(
    list: Seq<BcchCandidateView<M>>,
    candidate: BcchCandidateView<M>,
    k: int,
)
    requires
        list.len() <= 48,
        0 <= k < bcch_offered(list, candidate).len(),
    ensures
        bcch_offered(list, candidate)[k] == candidate || (k < list.len() && bcch_offered(
            list,
            candidate,
        )[k] == list[k]),
{
    let near = bcch_neighbour(list, candidate.bit_shift, candidate.burst_start, 0);
    bcch_neighbour_bounds(list, candidate.bit_shift, candidate.burst_start, 0);
    placing_keeps_the_best(view_scores(list), near, candidate.score, 48);
}

/// Whether a candidate is a block read from the stream, one bit early, on time
/// or one late.
pub open spec fn is_block_of<M, S: SymbolStream<M>>(
    candidate: BcchCandidateView<M>,
    stream: &S,
) -> bool {
    &&& -1 <= candidate.bit_shift <= 1
    &&& xcch_block(stream, candidate.burst_start as int, candidate.bit_shift as int) == Some(
        candidate.block,
    )
}

/// A block that can be read, be it one bit early, on time or one late, leaves
/// the list with a candidate that scores as high as it; nothing better is lost.
pub proof fn readable_block_is_offered<M, S: SymbolStream<M>>(
    stream: &S,
    list: Seq<BcchCandidateView<M>>,
    score: u32,
    burst0: int,
    shift: int,
)
    requires
        list.len() <= 48,
        -1 <= shift <= 1,
    ensures
        block_offered(stream, list, score, burst0, 3).len() <= 48,
        top_score(view_scores(block_offered(stream, list, score, burst0, 3))) >= top_score(
            view_scores(list),
        ),
        xcch_block(stream, burst0, shift) is Some ==> top_score(
            view_scores(block_offered(stream, list, score, burst0, 3)),
        ) >= score,
{
    block_offers(stream, list, score, burst0, 3, shift);
}

proof fn block_offers<M, S: SymbolStream<M>>(
    stream: &S,
    list: Seq<BcchCandidateView<M>>,
    score: u32,
    burst0: int,
    n: nat,
    shift: int,
)
    requires
        list.len() <= 48,
        n <= 3,
    ensures
        block_offered(stream, list, score, burst0, n).len() <= 48,
        top_score(view_scores(block_offered(stream, list, score, burst0, n))) >= top_score(
            view_scores(list),
        ),
        -1 <= shift < n - 1 && xcch_block(stream, burst0, shift) is Some ==> top_score(
            view_scores(block_offered(stream, list, score, burst0, n)),
        ) >= score,
    decreases n,
{
    if n > 0 {
        block_offers(stream, list, score, burst0, (n - 1) as nat, shift);
        let before = block_offered(stream, list, score, burst0, (n - 1) as nat);
        if let Some(block) = xcch_block(stream, burst0, n - 2) {
            offering_keeps_the_best(
                before,
                BcchCandidateView {
                    score,
                    burst_start: burst0 as usize,
                    bit_shift: (n - 2) as isize,
                    block,
                },
            );
        }
    }
}

/// What is offered of a block is that block as it can be read, with the score
/// that led to it.
proof fn block_offer_members<M, S: SymbolStream<M>>(
    stream: &S,
    list: Seq<BcchCandidateView<M>>,
    score: u32,
    burst0: int,
    n: nat,
    k: int,
)
    requires
        list.len() <= 48,
        n <= 3,
        0 <= burst0 <= usize::MAX,
        0 <= k < block_offered(stream, list, score, burst0, n).len(),
    ensures
        ({
            let c = block_offered(stream, list, score, burst0, n)[k];
            ||| k < list.len() && c == list[k]
            ||| is_block_of(c, stream) && c.score == score && c.burst_start == burst0
        }),
    decreases n,
{
    if n > 0 {
        let m = (n - 1) as nat;
        block_offers(stream, list, score, burst0, m, 0);
        let before = block_offered(stream, list, score, burst0, m);
        match xcch_block(stream, burst0, n - 2) {
            None => {
                block_offer_members(stream, list, score, burst0, m, k);
            },
            Some(block) => {
                let candidate = BcchCandidateView {
                    score,
                    burst_start: burst0 as usize,
                    bit_shift: (n - 2) as isize,
                    block,
                };
                offered_members(before, candidate, k);
                if k < before.len() {
                    block_offer_members(stream, list, score, burst0, m, k);
                }
            },
        }
    }
}

/// Whether a block may begin `delta` frames after a synchronisation burst: each
/// of the eleven frames on either side, and some farther away.
pub open spec fn is_scheduled(delta: int) -> bool {
    ||| -11 <= delta <= -1
    ||| 1 <= delta <= 11
    ||| delta == 15
    ||| delta == -15
    ||| delta == -21
    ||| delta == -25
    ||| delta == -31
    ||| delta == -41
}

spec fn delta_index(delta: int) -> int {
    if delta == -41 {
        0
    } else if delta == -31 {
        1
    } else if delta == -25 {
        2
    } else if delta == -21 {
        3
    } else if delta == -15 {
        4
    } else if delta < 0 {
        delta + 16
    } else if delta <= 11 {
        delta + 15
    } else {
        27
    }
}

proof fn deltas_are_scheduled(k: int)
    requires
        0 <= k < 28,
    ensures
        is_scheduled(FRAME_DELTAS@[k] as int),
        delta_index(FRAME_DELTAS@[k] as int) == k,
{
    if k < 14 {
        if k < 7 {
            assert(k == 0 || k == 1 || k == 2 || k == 3 || k == 4 || k == 5 || k == 6);
        } else {
            assert(k == 7 || k == 8 || k == 9 || k == 10 || k == 11 || k == 12 || k == 13);
        }
    } else {
        if k < 21 {
            assert(k == 14 || k == 15 || k == 16 || k == 17 || k == 18 || k == 19 || k == 20);
        } else {
            assert(k == 21 || k == 22 || k == 23 || k == 24 || k == 25 || k == 26 || k == 27);
        }
    }
}

proof fn scheduled_place(sch_start: int, delta: int, jitter: int) -> (p: int)
    requires
        is_scheduled(delta),
        -2 <= jitter <= 2,
    ensures
        0 <= p < 140,
        scheduled_start(sch_start, p) == sch_start + 1250 * delta + jitter,
{
    let k = delta_index(delta);
    deltas_are_scheduled(k);
    let d = FRAME_DELTAS@[k] as int;
    assert(delta_index(d) == k && is_scheduled(d));
    assert(d == delta);
    let p = 5 * k + jitter + 2;
    assert(p / 5 == k && p % 5 == jitter + 2);
    p
}

/// The timing of a synchronisation burst is followed to every frame in which a
/// block may begin, 1250 symbols to the frame, and two symbols to either side:
/// where the stream holds the block, the correlation reported is at least that
/// of its first burst.
pub proof fn timing_is_followed_to_every_frame<M, S: SymbolStream<M>>(
    stream: &S,
    sch_start: int,
    delta: int,
    jitter: int,
)
    requires
        is_scheduled(delta),
        -2 <= jitter <= 2,
        0 <= sch_start + 1250 * delta + jitter,
        sch_start + 1250 * delta + jitter + 3898 <= stream.symbols(),
    ensures
        schedule_best(stream, sch_start, 140) >= stream.score_at(
            (sch_start + 1250 * delta + jitter + 61) as usize,
        ),
{
    let p = scheduled_place(sch_start, delta, jitter);
    schedule_best_is_highest(stream, sch_start, 140, p);
}

/// The correlation that is reported was seen: it is that of the first burst of a
/// block in one of the frames in which one may begin, or nothing.
pub proof fn timing_reports_what_was_seen<M, S: SymbolStream<M>>(stream: &S, sch_start: int)
    ensures
        schedule_best(stream, sch_start, 140) == 0 || exists|delta: int, jitter: int|
            {
                &&& #[trigger] is_scheduled(delta)
                &&& -2 <= jitter <= 2
                &&& 0 <= sch_start + 1250 * delta + jitter
                &&& sch_start + 1250 * delta + jitter + 3898 <= stream.symbols()
                &&& schedule_best(stream, sch_start, 140) == #[trigger] stream.score_at(
                    (sch_start + 1250 * delta + jitter + 61) as usize,
                )
            },
{
    schedule_best_is_seen(stream, sch_start, 140);
    if schedule_best(stream, sch_start, 140) > 0 {
        let p = choose|p: int|
            0 <= p < 140 && block_fits(stream, #[trigger] scheduled_start(sch_start, p))
                && schedule_best(stream, sch_start, 140) == score_of(
                stream,
                scheduled_start(sch_start, p) + 61,
            );
        deltas_are_scheduled(p / 5);
        let delta = FRAME_DELTAS@[p / 5] as int;
        let jitter = p % 5 - 2;
        assert(is_scheduled(delta));
        assert(scheduled_start(sch_start, p) == sch_start + 1250 * delta + jitter);
        assert(schedule_best(stream, sch_start, 140) == stream.score_at(
            (sch_start + 1250 * delta + jitter + 61) as usize,
        ));
    }
}

proof fn schedule_best_is_seen<M, S: SymbolStream<M>>(stream: &S, sch_start: int, n: nat)
    ensures
        schedule_best(stream, sch_start, n) == 0 || exists|p: int|
            0 <= p < n && block_fits(stream, #[trigger] scheduled_start(sch_start, p))
                && schedule_best(stream, sch_start, n) == score_of(
                stream,
                scheduled_start(sch_start, p) + 61,
            ),
    decreases n,
{
    if n > 0 {
        let m = (n - 1) as nat;
        schedule_best_is_seen(stream, sch_start, m);
        if schedule_best(stream, sch_start, n) != schedule_best(stream, sch_start, m) {
            let p = n - 1;
            assert(block_fits(stream, scheduled_start(sch_start, p)));
        } else if schedule_best(stream, sch_start, m) > 0 {
            let p = choose|p: int|
                0 <= p < m && block_fits(stream, #[trigger] scheduled_start(sch_start, p))
                    && schedule_best(stream, sch_start, m) == score_of(
                    stream,
                    scheduled_start(sch_start, p) + 61,
                );
            assert(block_fits(stream, scheduled_start(sch_start, p)));
        }
    }
}

proof fn schedule_list_grows<M, S: SymbolStream<M>>(
    stream: &S,
    sch_start: int,
    bar: u32,
    m: nat,
    n: nat,
)
    requires
        m <= n,
    ensures
        schedule_list(stream, sch_start, bar, n).len() <= 48,
        top_score(view_scores(schedule_list(stream, sch_start, bar, n))) >= top_score(
            view_scores(schedule_list(stream, sch_start, bar, m)),
        ),
    decreases n,
{
    if n > 0 {
        let before = schedule_list(stream, sch_start, bar, (n - 1) as nat);
        schedule_list_grows(stream, sch_start, bar, if m < n { m } else { 0 }, (n - 1) as nat);
        let burst0 = scheduled_start(sch_start, n - 1);
        readable_block_is_offered(stream, before, score_of(stream, burst0 + 61), burst0, 0);
    }
}

/// A block in one of the frames in which one may begin is a candidate: where
/// its first burst correlates well enough and its bits can be read, early, on
/// time or late, it is offered, and the candidates score as high as it.
pub proof fn timed_blocks_are_offered<M, S: SymbolStream<M>>(
    stream: &S,
    sch_start: int,
    bar: u32,
    delta: int,
    jitter: int,
    shift: int,
)
    requires
        is_scheduled(delta),
        -2 <= jitter <= 2,
        -1 <= shift <= 1,
        0 <= sch_start + 1250 * delta + jitter,
        sch_start + 1250 * delta + jitter + 3898 <= stream.symbols(),
        stream.score_at((sch_start + 1250 * delta + jitter + 61) as usize) >= bar,
        xcch_block(stream, sch_start + 1250 * delta + jitter, shift) is Some,
    ensures
        ({
            let burst0 = sch_start + 1250 * delta + jitter;
            let score = stream.score_at((burst0 + 61) as usize);
            &&& top_score(view_scores(schedule_list(stream, sch_start, bar, 140))) >= score
            &&& exists|p: nat|
                p < 140 && schedule_list(stream, sch_start, bar, p + 1) == #[trigger] block_offered(
                    stream,
                    schedule_list(stream, sch_start, bar, p),
                    score,
                    burst0,
                    3,
                )
        }),
{
    let p = scheduled_place(sch_start, delta, jitter) as nat;
    let burst0 = sch_start + 1250 * delta + jitter;
    let score = stream.score_at((burst0 + 61) as usize);
    let before = schedule_list(stream, sch_start, bar, p);
    schedule_list_grows(stream, sch_start, bar, 0, p);
    readable_block_is_offered(stream, before, score, burst0, shift);
    schedule_list_grows(stream, sch_start, bar, p + 1, 140);
    assert(schedule_list(stream, sch_start, bar, p + 1) == block_offered(
        stream,
        before,
        score,
        burst0,
        3,
    ));
}

/// Every candidate that the timing leads to is a block in one of those frames,
/// as it can be read, and has the score of its first burst, which is enough.
pub proof fn timed_candidates_are_blocks<M, S: SymbolStream<M>>(
    stream: &S,
    sch_start: int,
    bar: u32,
    k: int,
)
    requires
        0 <= k < schedule_list(stream, sch_start, bar, 140).len(),
    ensures
        ({
            let c = schedule_list(stream, sch_start, bar, 140)[k];
            &&& is_block_of(c, stream)
            &&& c.score >= bar
            &&& c.score == stream.score_at((c.burst_start + 61) as usize)
            &&& c.burst_start + 3898 <= stream.symbols()
            &&& exists|delta: int| #[trigger]
                is_scheduled(delta) && -2 <= c.burst_start - sch_start - 1250 * delta <= 2
        }),
{
    timed_members(stream, sch_start, bar, 140, k);
}

proof fn timed_members<M, S: SymbolStream<M>>(
    stream: &S,
    sch_start: int,
    bar: u32,
    n: nat,
    k: int,
)
    requires
        n <= 140,
        0 <= k < schedule_list(stream, sch_start, bar, n).len(),
    ensures
        ({
            let c = schedule_list(stream, sch_start, bar, n)[k];
            &&& is_block_of(c, stream)
            &&& c.score >= bar
            &&& c.score == stream.score_at((c.burst_start + 61) as usize)
            &&& c.burst_start + 3898 <= stream.symbols()
            &&& exists|delta: int| #[trigger]
                is_scheduled(delta) && -2 <= c.burst_start - sch_start - 1250 * delta <= 2
        }),
    decreases n,
{
    if n > 0 {
        let m = (n - 1) as nat;
        let before = schedule_list(stream, sch_start, bar, m);
        schedule_list_grows(stream, sch_start, bar, 0, m);
        let burst0 = scheduled_start(sch_start, n - 1);
        let score = score_of(stream, burst0 + 61);
        if block_fits(stream, burst0) && score >= bar {
            block_offer_members(stream, before, score, burst0, 3, k);
            let c = schedule_list(stream, sch_start, bar, n)[k];
            if k < before.len() && c == before[k] {
                timed_members(stream, sch_start, bar, m, k);
            } else {
                let p = n - 1;
                deltas_are_scheduled(p / 5);
                assert(is_scheduled(FRAME_DELTAS@[p / 5] as int));
            }
        } else {
            timed_members(stream, sch_start, bar, m, k);
        }
    }
}

/// A scan looks at every place of every stream that is long enough: the
/// correlation reported is at least that of any of them.
pub proof fn scan_looks_everywhere<M, S: SymbolStream<M>>(
    trials: Seq<S>,
    n: nat,
    i: int,
    at: int,
)
    requires
        0 <= i < n <= trials.len(),
        trials[i].symbols() >= 5149,
        0 <= at,
        at + 26 <= trials[i].symbols(),
    ensures
        trials_best(trials, n) >= trials[i].score_at(at as usize),
    decreases n,
{
    let stream = trials[n - 1];
    let before = trials_best(trials, (n - 1) as nat);
    if i < n - 1 {
        scan_looks_everywhere(trials, (n - 1) as nat, i, at);
        if scan_places(&stream) > 0 {
            scan_best_is_highest(&stream, before, scan_places(&stream), 0);
        } else {
            assert(scan_best(&stream, before, 0) == before);
        }
    } else {
        scan_best_is_highest(&stream, before, scan_places(&stream), at);
    }
}

/// The correlation that a scan reports was seen in a stream that is long enough,
/// or is nothing.
pub proof fn scan_reports_what_was_seen<M, S: SymbolStream<M>>(trials: Seq<S>, n: nat)
    requires
        n <= trials.len(),
    ensures
        trials_best(trials, n) == 0 || exists|i: int, at: int|
            0 <= i < n && trials[i].symbols() >= 5149 && 0 <= at && at + 26 <= trials[i].symbols()
                && trials_best(trials, n) == #[trigger] trials[i].score_at(at as usize),
    decreases n,
{
    if n > 0 {
        let m = (n - 1) as nat;
        let stream = trials[n - 1];
        let before = trials_best(trials, m);
        scan_reports_what_was_seen(trials, m);
        if scan_places(&stream) > 0 {
            scan_best_is_highest(&stream, before, scan_places(&stream), 0);
            if trials_best(trials, n) != before {
                let k = choose|k: int|
                    0 <= k < scan_places(&stream) && trials_best(trials, n) == #[trigger] score_of(
                        &stream,
                        k,
                    );
                assert(trials_best(trials, n) == trials[n - 1].score_at(k as usize));
            }
        } else {
            assert(scan_best(&stream, before, 0) == before);
        }
        if trials_best(trials, n) == before && before > 0 {
            let (i, at) = choose|i: int, at: int|
                0 <= i < m && trials[i].symbols() >= 5149 && 0 <= at && at + 26
                    <= trials[i].symbols() && before == #[trigger] trials[i].score_at(at as usize);
            assert(trials_best(trials, n) == trials[i].score_at(at as usize));
        }
    }
}

proof fn alignments_grow<M, S: SymbolStream<M>>(
    stream: &S,
    list: Seq<BcchCandidateView<M>>,
    score: u32,
    burst_start: int,
    n: nat,
    k: int,
    shift: int,
)
    requires
        list.len() <= 48,
        -1 <= shift <= 1,
    ensures
        alignments_offered(stream, list, score, burst_start, n).len() <= 48,
        top_score(view_scores(alignments_offered(stream, list, score, burst_start, n)))
            >= top_score(view_scores(list)),
        0 <= k < n ==> (aligned_start(burst_start, k) matches Some(start) ==> xcch_block(
            stream,
            start,
            shift,
        ) is Some ==> top_score(
            view_scores(alignments_offered(stream, list, score, burst_start, n)),
        ) >= score),
    decreases n,
{
    if n > 0 {
        alignments_grow(stream, list, score, burst_start, (n - 1) as nat, k, shift);
        let before = alignments_offered(stream, list, score, burst_start, (n - 1) as nat);
        if let Some(start) = aligned_start(burst_start, n - 1) {
            readable_block_is_offered(stream, before, score, start, shift);
        }
    }
}

proof fn scan_list_grows<M, S: SymbolStream<M>>(
    stream: &S,
    list: Seq<BcchCandidateView<M>>,
    bar: u32,
    n: nat,
    at: int,
    k: int,
    shift: int,
)
    requires
        list.len() <= 48,
        -1 <= shift <= 1,
        0 <= k < 20,
    ensures
        scan_list(stream, list, bar, n).len() <= 48,
        top_score(view_scores(scan_list(stream, list, bar, n))) >= top_score(view_scores(list)),
        61 <= at < n && score_of(stream, at) >= bar ==> (aligned_start(at - 61, k) matches Some(
            start,
        ) ==> xcch_block(stream, start, shift) is Some ==> top_score(
            view_scores(scan_list(stream, list, bar, n)),
        ) >= score_of(stream, at)),
    decreases n,
{
    if n > 0 {
        scan_list_grows(stream, list, bar, (n - 1) as nat, at, k, shift);
        let before = scan_list(stream, list, bar, (n - 1) as nat);
        let score = score_of(stream, n - 1);
        if score >= bar && n - 1 >= 61 {
            alignments_grow(stream, before, score, n - 1 - 61, 20, k, shift);
        }
    }
}

/// A burst that a scan finds leads to its block, whichever of the four bursts it
/// is, give or take two symbols: where that can be read, early, on time or
/// late, the candidates score as high as the burst.
pub proof fn scanned_bursts_lead_to_their_blocks<M, S: SymbolStream<M>>(
    trials: Seq<S>,
    bar: u32,
    n: nat,
    i: int,
    at: int,
    position: int,
    jitter: int,
    shift: int,
)
    requires
        0 <= i < n <= trials.len(),
        trials[i].symbols() >= 5149,
        61 <= at,
        at + 26 <= trials[i].symbols(),
        trials[i].score_at(at as usize) >= bar,
        0 <= position < 4,
        -2 <= jitter <= 2,
        -1 <= shift <= 1,
        at - 61 - 1250 * position >= 0,
        at - 61 - 1250 * position + jitter >= 0,
        xcch_block(&trials[i], at - 61 - 1250 * position + jitter, shift) is Some,
    ensures
        trials_list(trials, bar, n).len() <= 48,
        top_score(view_scores(trials_list(trials, bar, n))) >= trials[i].score_at(at as usize),
    decreases n,
{
    let k = 5 * position + jitter + 2;
    assert(k / 5 == position && k % 5 == jitter + 2);
    assert(aligned_start(at - 61, k) == Some(at - 61 - 1250 * position + jitter));
    let stream = trials[n - 1];
    let before = trials_list(trials, bar, (n - 1) as nat);
    trials_list_is_bounded(trials, bar, (n - 1) as nat);
    if i < n - 1 {
        scanned_bursts_lead_to_their_blocks(
            trials,
            bar,
            (n - 1) as nat,
            i,
            at,
            position,
            jitter,
            shift,
        );
    }
    scan_list_grows(&stream, before, bar, scan_places(&stream), at, k, shift);
}

proof fn trials_list_is_bounded<M, S: SymbolStream<M>>(trials: Seq<S>, bar: u32, n: nat)
    ensures
        trials_list(trials, bar, n).len() <= 48,
    decreases n,
{
    if n > 0 {
        trials_list_is_bounded(trials, bar, (n - 1) as nat);
        let stream = trials[n - 1];
        let before = trials_list(trials, bar, (n - 1) as nat);
        scan_list_grows(&stream, before, bar, scan_places(&stream), 0, 0, 0);
    }
}

/// The first candidate that passes its parity check is the one reported.
pub proof fn first_passing_block_is_reported<M: PathMetric>(
    list: Seq<BcchCandidateView<M>>,
    k: int,
)
    requires
        0 <= k < list.len(),
        xcch_best(list[k].block) matches Some(d) && d.parity_ok,
        forall|j: int|
            0 <= j < k ==> !(xcch_best((#[trigger] list[j]).block) matches Some(d) && d.parity_ok),
    ensures
        block_choice(list) == xcch_best(list[k].block),
{
    let all = block_attempts(list, list.len());
    let ranks = bcch_ranks(all);
    failing_prefix(list, k as nat);
    let skipped = block_attempts(list, k as nat);
    let through = block_attempts(list, (k + 1) as nat);
    attempts_extend(list, (k + 1) as nat, list.len());
    let at = skipped.len() as int;
    assert(through[at] == xcch_best(list[k].block)->0);
    assert(all[at] == through[at]);
    assert forall|i: int| 0 <= i < at implies !(#[trigger] ranks[i]).ok by {
        assert(all[i] == through[i]);
        assert(through[i] == skipped[i]);
    }
    first_ok_skips(ranks, 0, at);
}

proof fn failing_prefix<M: PathMetric>(list: Seq<BcchCandidateView<M>>, n: nat)
    requires
        n <= list.len(),
        forall|j: int|
            0 <= j < n ==> !(xcch_best((#[trigger] list[j]).block) matches Some(d) && d.parity_ok),
    ensures
        forall|i: int|
            0 <= i < block_attempts(list, n).len() ==> !(#[trigger] block_attempts(
                list,
                n,
            )[i]).parity_ok,
    decreases n,
{
    if n > 0 {
        let m = (n - 1) as nat;
        failing_prefix(list, m);
        let before = block_attempts(list, m);
        let attempts = block_attempts(list, n);
        assert(list[n - 1] == list[n - 1]);
        assert forall|i: int| 0 <= i < attempts.len() implies !(#[trigger]
        attempts[i]).parity_ok by {
            if i < before.len() {
                assert(attempts[i] == before[i]);
            }
        }
    }
}

/// Of the candidates that pass their parity check the best scored one is
/// reported, and of equally scored ones the first to arrive.
pub proof fn best_scored_passing_block_is_reported<M: PathMetric>(
    decode: Option<GsmBcchDecode<M>>,
    candidates: Seq<BcchCandidateView<M>>,
    i: int,
)
    requires
        is_reported(decode, candidates),
        candidates.len() <= 48,
        0 <= i < candidates.len(),
        xcch_best(candidates[i].block) matches Some(d) && d.parity_ok,
        forall|j: int|
            0 <= j < candidates.len() && j != i && (xcch_best(
                (#[trigger] candidates[j]).block,
            ) matches Some(d) && d.parity_ok) ==> candidates[j].score < candidates[i].score || (
            candidates[j].score == candidates[i].score && i < j),
    ensures
        decode is Some,
        Some(decode->0@) == xcch_best(candidates[i].block),
{
    let scores = view_scores(candidates);
    let order = choose|order: Seq<usize>|
        {
            &&& #[trigger] is_descending_order(order, scores)
            &&& match (decode, block_choice(reordered(candidates, order))) {
                (Some(d), Some(view)) => d@ == view,
                (None, None) => true,
                _ => false,
            }
        };
    descending_order_is_complete(order, scores, i as usize);
    let k = choose|k: int| 0 <= k < order.len() && order[k] == i as usize;
    let list = reordered(candidates, order);
    assert(list[k] == candidates[i]);
    assert forall|j: int| 0 <= j < k implies !(xcch_best((#[trigger] list[j]).block) matches Some(d)
        && d.parity_ok) by {
        best_first_is_descending(order, scores, j, k);
        let other = order[j] as int;
        assert(list[j] == candidates[other]);
        assert(scores[other] == candidates[other].score);
        assert(scores[i] == candidates[i].score);
    }
    first_passing_block_is_reported(list, k);
}

/// What is reported was decoded from one of the candidates, and there is no
/// report just where none of them could be decoded.
pub proof fn report_is_of_a_candidate<M: PathMetric>(list: Seq<BcchCandidateView<M>>, j: int)
    ensures
        match block_choice(list) {
            Some(d) => exists|i: int|
                0 <= i < list.len() && xcch_best((#[trigger] list[i]).block) == Some(d),
            None => 0 <= j < list.len() ==> xcch_best(list[j].block) is None,
        },
{
    let attempts = block_attempts(list, list.len());
    let ranks = bcch_ranks(attempts);
    attempts_are_decodes(list, list.len(), j);
    choice_is_made_among_attempts(ranks, 0);
    if let Some(k) = chosen(ranks) {
        assert(attempts[k] == attempts[k]);
    }
}

proof fn attempts_are_decodes<M: PathMetric>(
    list: Seq<BcchCandidateView<M>>,
    n: nat,
    j: int,
)
    requires
        n <= list.len(),
    ensures
        forall|k: int|
            #![trigger block_attempts(list, n)[k]]
            0 <= k < block_attempts(list, n).len() ==> exists|i: int|
                0 <= i < list.len() && xcch_best((#[trigger] list[i]).block) == Some(
                    block_attempts(list, n)[k],
                ),
        block_attempts(list, n).len() == 0 && 0 <= j < n ==> xcch_best(list[j].block) is None,
    decreases n,
{
    if n > 0 {
        let m = (n - 1) as nat;
        attempts_are_decodes(list, m, j);
        let before = block_attempts(list, m);
        let attempts = block_attempts(list, n);
        assert forall|k: int|
            #![trigger attempts[k]]
            0 <= k < attempts.len() implies exists|i: int|
            0 <= i < list.len() && xcch_best((#[trigger] list[i]).block) == Some(attempts[k]) by {
            if k < before.len() {
                assert(attempts[k] == before[k]);
            } else {
                assert(xcch_best(list[n - 1].block) == Some(attempts[k]));
            }
        }
    }
}

/// Where no candidate passes its parity check, what is reported is the decode
/// whose check leaves the fewest set bits.
pub proof fn failing_report_has_the_fewest_errors<M: PathMetric>(
    list: Seq<BcchCandidateView<M>>,
    j: int,
)
    requires
        0 <= j < list.len(),
        xcch_best(list[j].block) is Some,
    ensures
        block_choice(list) matches Some(d) && {
            let other = xcch_best(list[j].block)->0;
            &&& other.parity_ok ==> d.parity_ok
            &&& !d.parity_ok ==> ones(d.syndrome as nat) <= ones(other.syndrome as nat)
        },
{
    let attempts = block_attempts(list, list.len());
    let ranks = bcch_ranks(attempts);
    let through = block_attempts(list, (j + 1) as nat);
    attempts_extend(list, (j + 1) as nat, list.len());
    let at = through.len() - 1;
    assert(through[at] == xcch_best(list[j].block)->0);
    assert(attempts[at] == through[at]);
    choice_is_made_among_attempts(ranks, at);
    if exists|i: int| 0 <= i < ranks.len() && (#[trigger] ranks[i]).ok {
        let i = choose|i: int| 0 <= i < ranks.len() && (#[trigger] ranks[i]).ok;
        passing_attempt_is_chosen(ranks, i);
    } else {
        assert(!ranks[at].ok);
        assert(!ranks[chosen(ranks)->0].ok);
    }
}

} // verus!
