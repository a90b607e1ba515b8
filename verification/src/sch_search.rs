//! The search for synchronisation bursts in a symbol stream.

use crate::ranking::{
    best_first_is_descending, best_index, best_index_bounds, choice_bounds,
    choice_is_made_among_attempts, chosen, descending_order_is_complete, first_lowest_is_weakest,
    first_ok_skips, is_descending_order, ones, passing_attempt_is_chosen, place_candidate, placed,
    placement_of, placing_keeps_the_best, reordered, scores_of, sort_candidates, top_score,
    top_score_is_max, Placement, Rank, Scored,
};
use crate::sch::{decode_sch_candidate, replaces_sch, sch_best, sch_rank, GsmSchDecode};
use crate::soft::SoftBit;
use crate::symbols::{burst_of, score_of, SymbolStream, BURST_SYMBOLS};
use crate::viterbi::PathMetric;
use vstd::prelude::*;

verus! {

/// Candidates kept at most.
pub const MAX_SCH_CANDIDATES: usize = 18;

/// Candidates at most this many symbols apart are taken for one burst.
pub const SCH_SUPPRESSION_SYMBOLS: usize = 6;

/// Symbols from the start of a burst to its training sequence.
pub const SCH_TRAINING_OFFSET: usize = 42;

/// Symbols in the training sequence.
pub const SCH_TRAINING_SYMBOLS: usize = 64;

/// A place in the signal that correlates with the training sequence.
pub struct SchCandidate<M, P> {
    /// Correlation with the training sequence.
    pub score: u32,
    /// Symbol at which the burst starts.
    pub symbol_offset: usize,
    /// Sampling phase at which it was found.
    pub sample_phase: P,
    /// The demodulated burst.
    pub soft: Vec<SoftBit<M>>,
}

/// Model of [`SchCandidate`].
pub struct SchCandidateView<M, P> {
    pub score: u32,
    pub symbol_offset: usize,
    pub sample_phase: P,
    pub burst: Seq<SoftBit<M>>,
}

impl<M, P> View for SchCandidate<M, P> {
    type V = SchCandidateView<M, P>;

    open spec fn view(&self) -> SchCandidateView<M, P> {
        SchCandidateView {
            score: self.score,
            symbol_offset: self.symbol_offset,
            sample_phase: self.sample_phase,
            burst: self.soft@,
        }
    }
}

impl<M, P> Scored for SchCandidate<M, P> {
    open spec fn score_value(self) -> u32 {
        self.score
    }

    fn score(&self) -> (score: u32) {
        self.score
    }
}

/// The models of a list of candidates.
pub open spec fn candidate_views<M, P>(list: Seq<SchCandidate<M, P>>) -> Seq<
    SchCandidateView<M, P>,
> {
    list.map_values(|c: SchCandidate<M, P>| c@)
}

/// The scores of a list of candidates.
pub open spec fn view_scores<M, P>(list: Seq<SchCandidateView<M, P>>) -> Seq<u32> {
    list.map_values(|c: SchCandidateView<M, P>| c.score)
}

/// Whether two burst starts are taken for one.
pub open spec fn same_burst(a: usize, b: usize) -> bool {
    -6 <= a - b <= 6
}

/// The first candidate from `from` on that is taken for the burst at `offset`.
pub open spec fn sch_neighbour<M, P>(
    list: Seq<SchCandidateView<M, P>>,
    offset: usize,
    from: int,
) -> Option<int>
    decreases list.len() - from,
{
    if from < 0 || from >= list.len() {
        None
    } else if same_burst(list[from].symbol_offset, offset) {
        Some(from)
    } else {
        sch_neighbour(list, offset, from + 1)
    }
}

/// The list after a candidate was offered to it.
pub open spec fn sch_offered<M, P>(
    list: Seq<SchCandidateView<M, P>>,
    candidate: SchCandidateView<M, P>,
) -> Seq<SchCandidateView<M, P>> {
    placed(
        list,
        candidate,
        placement_of(
            view_scores(list),
            sch_neighbour(list, candidate.symbol_offset, 0),
            candidate.score,
            18,
        ),
    )
}

proof fn sch_neighbour_from<M, P>(list: Seq<SchCandidateView<M, P>>, offset: usize, to: int)
    requires
        0 <= to <= list.len(),
        forall|i: int| 0 <= i < to ==> !same_burst((#[trigger] list[i]).symbol_offset, offset),
    ensures
        sch_neighbour(list, offset, 0) == sch_neighbour(list, offset, to),
    decreases to,
{
    if to > 0 {
        sch_neighbour_from(list, offset, to - 1);
    }
}

/// Offers a candidate to the list: of those taken for one burst only the best
/// stays, and a full list gives up its weakest for a better one.
pub fn push_sch_candidate<M, P>(
    candidates: &mut Vec<SchCandidate<M, P>>,
    candidate: SchCandidate<M, P>,
)
    ensures
        candidate_views(final(candidates)@) == sch_offered(
            candidate_views(old(candidates)@),
            candidate@,
        ),
{
    let offset: usize = candidate.symbol_offset;
    let ghost views = candidate_views(candidates@);
    let mut near: Option<usize> = None;
    let mut scores: Vec<u32> = Vec::with_capacity(candidates.len());
    for i in 0..candidates.len()
        invariant
            candidates@ == old(candidates)@,
            views == candidate_views(candidates@),
            offset == candidate.symbol_offset,
            scores@ =~= view_scores(views.take(i as int)),
            near matches Some(k) ==> k < i && sch_neighbour(views, offset, 0) == Some(k as int),
            near is None ==> forall|j: int|
                0 <= j < i ==> !same_burst((#[trigger] views[j]).symbol_offset, offset),
    {
        let other: usize = candidates[i].symbol_offset;
        let gap: usize = if other < offset {
            offset - other
        } else {
            other - offset
        };
        assert(views[i as int] == candidates@[i as int]@);
        if near.is_none() && gap <= SCH_SUPPRESSION_SYMBOLS {
            proof {
                sch_neighbour_from(views, offset, i as int);
            }
            near = Some(i);
        }
        scores.push(candidates[i].score);
    }
    assert(views.take(views.len() as int) =~= views);
    proof {
        if near is None {
            sch_neighbour_from(views, offset, views.len() as int);
        }
    }
    let ghost offered = sch_offered(views, candidate@);
    match place_candidate(scores.as_slice(), near, candidate.score, MAX_SCH_CANDIDATES) {
        Placement::Drop => {},
        Placement::Replace(i) => {
            candidates.set(i, candidate);
        },
        Placement::Append => {
            candidates.push(candidate);
        },
    }
    assert(candidate_views(candidates@) =~= offered);
}

proof fn sch_neighbour_bounds<M, P>(list: Seq<SchCandidateView<M, P>>, offset: usize, from: int)
    ensures
        sch_neighbour(list, offset, from) matches Some(i) ==> 0 <= i < list.len(),
    decreases list.len() - from,
{
    if 0 <= from < list.len() {
        sch_neighbour_bounds(list, offset, from + 1);
    }
}

/// Offering a candidate never lets the list outgrow its bound and never loses
/// the best: the highest score afterwards is the higher of the highest before
/// and the candidate's own.
pub proof fn offering_keeps_the_best<M, P>(
    list: Seq<SchCandidateView<M, P>>,
    candidate: SchCandidateView<M, P>,
)
    requires
        list.len() <= 18,
    ensures
        sch_offered(list, candidate).len() <= 18,
        top_score(view_scores(sch_offered(list, candidate))) == if candidate.score > top_score(
            view_scores(list),
        ) {
            candidate.score
        } else {
            top_score(view_scores(list))
        },
{
    let scores = view_scores(list);
    let near = sch_neighbour(list, candidate.symbol_offset, 0);
    sch_neighbour_bounds(list, candidate.symbol_offset, 0);
    placing_keeps_the_best(scores, near, candidate.score, 18);
    let place = placement_of(scores, near, candidate.score, 18);
    assert(view_scores(sch_offered(list, candidate)) =~= placed(scores, candidate.score, place));
}

/// The state of a search for synchronisation bursts.
pub struct SchSearch<M, P> {
    /// Highest correlation seen.
    pub best_score: u32,
    /// Where the burst with it starts, which may be before the first symbol.
    pub best_offset: Option<isize>,
    /// The sampling phase at which it was seen.
    pub best_phase: Option<P>,
    /// The candidates worth decoding.
    pub candidates: Vec<SchCandidate<M, P>>,
}

/// Model of [`SchSearch`].
pub struct SchSearchView<M, P> {
    pub best_score: u32,
    pub best_offset: Option<isize>,
    pub best_phase: Option<P>,
    pub candidates: Seq<SchCandidateView<M, P>>,
}

impl<M, P> View for SchSearch<M, P> {
    type V = SchSearchView<M, P>;

    open spec fn view(&self) -> SchSearchView<M, P> {
        SchSearchView {
            best_score: self.best_score,
            best_offset: self.best_offset,
            best_phase: self.best_phase,
            candidates: candidate_views(self.candidates@),
        }
    }
}

/// A search that has seen nothing.
pub open spec fn fresh_search<M, P>() -> SchSearchView<M, P> {
    SchSearchView { best_score: 0, best_offset: None, best_phase: None, candidates: seq![] }
}

/// The search after it took note of the correlation at symbol `at`: only a
/// strictly higher one displaces the best, and a burst becomes a candidate
/// where its score is at least `bar` and the stream holds it and one symbol
/// more.
pub open spec fn observed<M, P, S: SymbolStream<M>>(
    search: SchSearchView<M, P>,
    stream: &S,
    phase: P,
    bar: u32,
    at: int,
) -> SchSearchView<M, P> {
    let score = score_of(stream, at);
    let leads = score > search.best_score;
    SchSearchView {
        best_score: if leads {
            score
        } else {
            search.best_score
        },
        best_offset: if leads {
            Some((at - 42) as isize)
        } else {
            search.best_offset
        },
        best_phase: if leads {
            Some(phase)
        } else {
            search.best_phase
        },
        candidates: if score >= bar && at >= 42 && at - 42 + 148 < stream.symbols() {
            sch_offered(
                search.candidates,
                SchCandidateView {
                    score,
                    symbol_offset: (at - 42) as usize,
                    sample_phase: phase,
                    burst: burst_of(stream, at - 42),
                },
            )
        } else {
            search.candidates
        },
    }
}

/// The search after the first `n` symbols of a stream.
pub open spec fn scanned<M, P, S: SymbolStream<M>>(
    search: SchSearchView<M, P>,
    stream: &S,
    phase: P,
    bar: u32,
    n: nat,
) -> SchSearchView<M, P>
    decreases n,
{
    if n == 0 {
        search
    } else {
        observed(
            scanned(search, stream, phase, bar, (n - 1) as nat),
            stream,
            phase,
            bar,
            n - 1,
        )
    }
}

/// How many places of a stream are looked at: none in fewer than 150 symbols.
pub open spec fn scan_places<M, S: SymbolStream<M>>(stream: &S) -> nat {
    if stream.symbols() <= 149 {
        0
    } else {
        (stream.symbols() - 63) as nat
    }
}

/// A stream and the sampling phase at which it was taken.
pub struct SchTrial<S, P> {
    pub symbols: S,
    pub phase: P,
}

/// The search after the first `n` streams.
pub open spec fn searched<M, P, S: SymbolStream<M>>(
    trials: Seq<SchTrial<S, P>>,
    bar: u32,
    n: nat,
) -> SchSearchView<M, P>
    decreases n,
{
    if n == 0 {
        fresh_search()
    } else {
        let trial = trials[n - 1];
        scanned(
            searched(trials, bar, (n - 1) as nat),
            &trial.symbols,
            trial.phase,
            bar,
            scan_places(&trial.symbols),
        )
    }
}

impl<M: PathMetric, P: Copy> SchSearch<M, P> {
    /// A search that has seen nothing.
    pub fn new() -> (search: Self)
        ensures
            search@ == fresh_search::<M, P>(),
    {
        let search = SchSearch {
            best_score: 0,
            best_offset: None,
            best_phase: None,
            candidates: Vec::new(),
        };
        assert(search@.candidates =~= seq![]);
        search
    }

    /// Looks at one stream.
    pub fn scan<S: SymbolStream<M>>(&mut self, symbols: &S, phase: P, bar: u32)
        requires
            symbols.training() == 64,
            symbols.symbols() <= isize::MAX,
        ensures
            final(self)@ == scanned(old(self)@, symbols, phase, bar, scan_places(symbols)),
            final(self).best_score == old(self).best_score || final(self).best_score
                <= symbols.full_score(),
            final(self).best_score >= old(self).best_score,
            symbols.symbols() >= 150 ==> forall|at: usize|
                at + 64 <= symbols.symbols() ==> final(self).best_score
                    >= #[trigger] symbols.score_at(at),
    {
        let count: usize = symbols.symbol_count();
        if count <= BURST_SYMBOLS + 1 {
            return;
        }
        let places: usize = count - SCH_TRAINING_SYMBOLS + 1;
        for at in 0..places
            invariant
                symbols.training() == 64,
                symbols.symbols() <= isize::MAX,
                count == symbols.symbols(),
                count > 149,
                places == count - 63,
                self@ == scanned(old(self)@, symbols, phase, bar, at as nat),
                self.best_score == old(self).best_score || self.best_score
                    <= symbols.full_score(),
                self.best_score >= old(self).best_score,
                forall|k: usize| k < at ==> self.best_score >= #[trigger] symbols.score_at(k),
        {
            let ghost before = self@;
            let score: u32 = symbols.correlation(at);
            if score > self.best_score {
                self.best_score = score;
                self.best_offset = Some(at as isize - 42);
                self.best_phase = Some(phase);
            }
            if score >= bar && at >= SCH_TRAINING_OFFSET && at - SCH_TRAINING_OFFSET < count
                - BURST_SYMBOLS {
                let start: usize = at - SCH_TRAINING_OFFSET;
                let soft = symbols.soft_burst(start);
                push_sch_candidate(
                    &mut self.candidates,
                    SchCandidate { score, symbol_offset: start, sample_phase: phase, soft },
                );
            }
            assert(self@ == observed(before, symbols, phase, bar, at as int));
        }
    }
}

/// The bursts among the first `n` candidates that could be decoded, with the
/// candidates that they came from.
pub open spec fn sch_attempts<M: PathMetric, P>(
    candidates: Seq<SchCandidateView<M, P>>,
    n: nat,
) -> Seq<(int, GsmSchDecode<M>)>
    decreases n,
{
    if n == 0 {
        seq![]
    } else {
        let before = sch_attempts(candidates, (n - 1) as nat);
        match sch_best(candidates[n - 1].burst) {
            None => before,
            Some(decode) => before.push((n - 1, decode)),
        }
    }
}

/// How the decoded bursts are judged.
pub open spec fn attempt_ranks<M: PathMetric>(attempts: Seq<(int, GsmSchDecode<M>)>) -> Seq<
    Rank<M>,
> {
    attempts.map_values(|a: (int, GsmSchDecode<M>)| sch_rank(a.1))
}

/// The decoded burst that is reported, with its candidate: the first in the
/// list that passes its parity check, else the best.
pub open spec fn sch_choice<M: PathMetric, P>(candidates: Seq<SchCandidateView<M, P>>) -> Option<
    (int, GsmSchDecode<M>),
> {
    let attempts = sch_attempts(candidates, candidates.len());
    match chosen(attempt_ranks(attempts)) {
        None => None,
        Some(i) => Some(attempts[i]),
    }
}

/// Decodes candidates in turn: the first that passes its parity check is
/// reported, else the best of all. The index of the candidate comes with it.
pub fn decode_sch_candidates<M: PathMetric, P>(candidates: &[SchCandidate<M, P>]) -> (r: Option<
    (usize, GsmSchDecode<M>),
>)
    ensures
        match (r, sch_choice(candidate_views(candidates@))) {
            (Some((i, decode)), Some((k, chosen_decode))) => i == k && decode == chosen_decode,
            (None, None) => true,
            _ => false,
        },
        r matches Some((i, _)) ==> i < candidates@.len(),
{
    let mut held: Option<(usize, GsmSchDecode<M>)> = None;
    let ghost list = candidate_views(candidates@);
    let mut n: usize = 0;
    while n < candidates.len()
        invariant
            list == candidate_views(candidates@),
            n <= list.len(),
            sch_held(list, n as nat, held),
        decreases list.len() - n,
    {
        assert(list[n as int] == candidates@[n as int]@);
        match decode_sch_candidate(candidates[n].soft.as_slice()) {
            None => {
                assert(sch_attempts(list, (n + 1) as nat) == sch_attempts(list, n as nat));
            },
            Some(decode) => {
                if decode.parity_ok {
                    proof {
                        sch_passed_chosen(list, n as nat, held, decode);
                    }
                    return Some((n, decode));
                }
                held = hold_better::<M, P>(held, n, decode, Ghost(list));
            },
        }
        n = n + 1;
    }
    proof {
        let ranks = attempt_ranks(sch_attempts(list, list.len()));
        first_ok_skips(ranks, 0, ranks.len() as int);
        if ranks.len() > 0 {
            best_index_bounds(ranks);
        }
    }
    held
}

/// Whether `held` is the best of the first `n` candidates, none of which passed.
spec fn sch_held<M: PathMetric, P>(
    candidates: Seq<SchCandidateView<M, P>>,
    n: nat,
    held: Option<(usize, GsmSchDecode<M>)>,
) -> bool {
    let attempts = sch_attempts(candidates, n);
    let ranks = attempt_ranks(attempts);
    &&& forall|i: int| 0 <= i < ranks.len() ==> !(#[trigger] ranks[i]).ok
    &&& match held {
        None => attempts.len() == 0,
        Some((i, decode)) => {
            &&& attempts.len() > 0
            &&& (i as int, decode) == attempts[best_index(ranks)]
            &&& i < n
        },
    }
}

proof fn attempts_extend<M: PathMetric, P>(
    candidates: Seq<SchCandidateView<M, P>>,
    n: nat,
    m: nat,
)
    requires
        n <= m,
    ensures
        sch_attempts(candidates, n).is_prefix_of(sch_attempts(candidates, m)),
    decreases m - n,
{
    if n < m {
        attempts_extend(candidates, n, (m - 1) as nat);
    }
}

proof fn sch_passed_chosen<M: PathMetric, P>(
    list: Seq<SchCandidateView<M, P>>,
    n: nat,
    held: Option<(usize, GsmSchDecode<M>)>,
    decode: GsmSchDecode<M>,
)
    requires
        n < list.len(),
        sch_held(list, n, held),
        sch_best(list[n as int].burst) == Some(decode),
        decode.parity_ok,
    ensures
        sch_choice(list) == Some((n as int, decode)),
{
    let attempts = sch_attempts(list, n);
    let ranks = attempt_ranks(attempts);
    let next = sch_attempts(list, n + 1);
    let last = attempts.len() as int;
    let all = sch_attempts(list, list.len());
    let all_ranks = attempt_ranks(all);
    assert(next == attempts.push((n as int, decode)));
    attempts_extend(list, n + 1, list.len());
    assert forall|i: int| 0 <= i < last implies !(#[trigger] all_ranks[i]).ok by {
        assert(all[i] == next[i]);
        assert(!ranks[i].ok);
    }
    assert(all[last] == next[last]);
    first_ok_skips(all_ranks, 0, last);
}

/// Offers candidate `n`, whose burst did not pass.
fn hold_better<M: PathMetric, P>(
    held: Option<(usize, GsmSchDecode<M>)>,
    n: usize,
    decode: GsmSchDecode<M>,
    Ghost(list): Ghost<Seq<SchCandidateView<M, P>>>,
) -> (next: Option<(usize, GsmSchDecode<M>)>)
    requires
        n < list.len(),
        sch_held(list, n as nat, held),
        sch_best(list[n as int].burst) == Some(decode),
        !decode.parity_ok,
    ensures
        sch_held(list, (n + 1) as nat, next),
{
    let ghost attempts = sch_attempts(list, n as nat);
    let ghost ranks = attempt_ranks(attempts);
    let ghost more = sch_attempts(list, (n + 1) as nat);
    proof {
        assert(more == attempts.push((n as int, decode)));
        assert(attempt_ranks(more) =~= ranks.push(sch_rank(decode)));
        assert(attempt_ranks(more).drop_last() =~= ranks);
        if attempts.len() > 0 {
            best_index_bounds(ranks);
        }
    }
    match held {
        None => Some((n, decode)),
        Some((i, old)) => {
            if replaces_sch(&decode, &old) {
                Some((n, decode))
            } else {
                Some((i, old))
            }
        },
    }
}

/// What a search found.
pub struct SchSync<M, P> {
    /// The highest correlation seen, whichever burst is reported.
    pub best_score: u32,
    pub correlation: Option<u32>,
    pub symbol_offset: Option<isize>,
    pub sample_phase: Option<P>,
    pub detected: bool,
    pub decode: Option<GsmSchDecode<M>>,
}

/// What a search with these candidates, best first, found.
pub open spec fn sch_sync_of<M: PathMetric, P>(
    search: SchSearchView<M, P>,
    sorted: Seq<SchCandidateView<M, P>>,
    threshold: u32,
) -> SchSync<M, P> {
    if search.best_score == 0 {
        SchSync {
            best_score: 0,
            correlation: None,
            symbol_offset: None,
            sample_phase: None,
            detected: false,
            decode: None,
        }
    } else {
        let detected = search.best_score >= threshold;
        let choice = if detected {
            sch_choice(sorted)
        } else {
            None
        };
        match choice {
            Some((i, decode)) if decode.parity_ok => SchSync {
                best_score: search.best_score,
                correlation: Some(sorted[i].score),
                symbol_offset: Some(sorted[i].symbol_offset as isize),
                sample_phase: Some(sorted[i].sample_phase),
                detected,
                decode: Some(decode),
            },
            _ => SchSync {
                best_score: search.best_score,
                correlation: Some(search.best_score),
                symbol_offset: search.best_offset,
                sample_phase: search.best_phase,
                detected,
                decode: match choice {
                    Some((_, decode)) => Some(decode),
                    None => None,
                },
            },
        }
    }
}

/// Whether `sorted` lists the candidates of a search best first, equal scores
/// in the order of arrival.
pub open spec fn is_best_first<M, P>(
    sorted: Seq<SchCandidateView<M, P>>,
    candidates: Seq<SchCandidateView<M, P>>,
) -> bool {
    exists|order: Seq<usize>|
        #[trigger] is_descending_order(order, view_scores(candidates)) && sorted == reordered(
            candidates,
            order,
        )
}

/// Reports what a search found: the best correlation, whether it reaches
/// `threshold`, and if so the decoded burst. A burst that passes its parity
/// check brings its own timing. The candidates come with it, best first.
pub fn finish_sch_search<M: PathMetric, P: Copy>(search: SchSearch<M, P>, threshold: u32) -> (r: (
    SchSync<M, P>,
    Vec<SchCandidate<M, P>>,
))
    ensures
        is_best_first(candidate_views(r.1@), search@.candidates),
        r.0 == sch_sync_of(search@, candidate_views(r.1@), threshold),
{
    let ghost view = search@;
    let ghost list = search.candidates@;
    let best_score: u32 = search.best_score;
    let mut sorted = search.candidates;
    sort_candidates(&mut sorted);
    proof {
        let order = choose|order: Seq<usize>|
            #[trigger] is_descending_order(order, scores_of(list)) && sorted@ == reordered(
                list,
                order,
            );
        assert(scores_of(list) =~= view_scores(view.candidates));
        assert(candidate_views(sorted@) =~= reordered(view.candidates, order));
        assert(is_descending_order(order, view_scores(view.candidates)));
    }
    if best_score == 0 {
        let nothing = SchSync {
            best_score: 0,
            correlation: None,
            symbol_offset: None,
            sample_phase: None,
            detected: false,
            decode: None,
        };
        return (nothing, sorted);
    }
    let detected = best_score >= threshold;
    let mut sync = SchSync {
        best_score,
        correlation: Some(best_score),
        symbol_offset: search.best_offset,
        sample_phase: search.best_phase,
        detected,
        decode: None,
    };
    if detected {
        let ghost views = candidate_views(sorted@);
        match decode_sch_candidates(sorted.as_slice()) {
            None => {},
            Some((i, decode)) => {
                assert(views[i as int] == sorted@[i as int]@);
                if decode.parity_ok {
                    sync.correlation = Some(sorted[i].score);
                    sync.symbol_offset = Some(sorted[i].symbol_offset as isize);
                    sync.sample_phase = Some(sorted[i].sample_phase);
                }
                sync.decode = Some(decode);
            },
        }
    }
    (sync, sorted)
}

/// No candidate scores higher than the best correlation of its search.
pub proof fn candidates_score_at_most_the_best<M, P, S: SymbolStream<M>>(
    trials: Seq<SchTrial<S, P>>,
    bar: u32,
    n: nat,
    k: int,
)
    requires
        0 <= k < searched::<M, P, S>(trials, bar, n).candidates.len(),
    ensures
        searched::<M, P, S>(trials, bar, n).candidates[k].score <= searched::<M, P, S>(
            trials,
            bar,
            n,
        ).best_score,
{
    search_is_topped::<M, P, S>(trials, bar, n);
    topped_candidate(searched::<M, P, S>(trials, bar, n), k);
}

spec fn is_topped<M, P>(search: SchSearchView<M, P>) -> bool {
    &&& search.candidates.len() <= 18
    &&& top_score(view_scores(search.candidates)) <= search.best_score
}

proof fn topped_candidate<M, P>(search: SchSearchView<M, P>, k: int)
    requires
        is_topped(search),
        0 <= k < search.candidates.len(),
    ensures
        search.candidates[k].score <= search.best_score,
{
    let scores = view_scores(search.candidates);
    top_score_is_max(scores);
    assert(scores[k] <= top_score(scores));
}

proof fn scan_is_topped<M, P, S: SymbolStream<M>>(
    search: SchSearchView<M, P>,
    stream: &S,
    phase: P,
    bar: u32,
    n: nat,
)
    requires
        is_topped(search),
    ensures
        is_topped(scanned(search, stream, phase, bar, n)),
    decreases n,
{
    if n > 0 {
        scan_is_topped(search, stream, phase, bar, (n - 1) as nat);
        let at = n - 1;
        offering_keeps_the_best(
            scanned(search, stream, phase, bar, (n - 1) as nat).candidates,
            SchCandidateView {
                score: score_of(stream, at),
                symbol_offset: (at - 42) as usize,
                sample_phase: phase,
                burst: burst_of(stream, at - 42),
            },
        );
    }
}

proof fn search_is_topped<M, P, S: SymbolStream<M>>(
    trials: Seq<SchTrial<S, P>>,
    bar: u32,
    n: nat,
)
    ensures
        is_topped(searched::<M, P, S>(trials, bar, n)),
    decreases n,
{
    if n > 0 {
        let trial = trials[n - 1];
        search_is_topped::<M, P, S>(trials, bar, (n - 1) as nat);
        scan_is_topped(
            searched(trials, bar, (n - 1) as nat),
            &trial.symbols,
            trial.phase,
            bar,
            scan_places(&trial.symbols),
        );
    }
}

proof fn report_is_topped<M: PathMetric, P>(
    search: SchSearchView<M, P>,
    sorted: Seq<SchCandidateView<M, P>>,
    threshold: u32,
)
    requires
        is_topped(search),
        is_best_first(sorted, search.candidates),
    ensures
        sch_sync_of(search, sorted, threshold).correlation matches Some(c) ==> c
            <= search.best_score,
{
    let order = choose|order: Seq<usize>|
        #[trigger] is_descending_order(order, view_scores(search.candidates)) && sorted
            == reordered(search.candidates, order);
    if let Some((i, decode)) = sch_choice(sorted) {
        let attempts = sch_attempts(sorted, sorted.len());
        let ranks = attempt_ranks(attempts);
        attempts_are_candidates(sorted, sorted.len());
        choice_bounds(ranks);
        let j = chosen(ranks)->0;
        assert(attempts[j].0 == i);
        assert(sorted[i] == search.candidates[order[i] as int]);
        topped_candidate(search, order[i] as int);
    }
}

proof fn attempts_are_candidates<M: PathMetric, P>(
    candidates: Seq<SchCandidateView<M, P>>,
    n: nat,
)
    ensures
        forall|j: int|
            0 <= j < sch_attempts(candidates, n).len() ==> 0 <= (#[trigger] sch_attempts(
                candidates,
                n,
            )[j]).0 < n,
    decreases n,
{
    if n > 0 {
        attempts_are_candidates(candidates, (n - 1) as nat);
        let before = sch_attempts(candidates, (n - 1) as nat);
        let attempts = sch_attempts(candidates, n);
        assert forall|j: int| 0 <= j < attempts.len() implies 0 <= (#[trigger] attempts[j]).0
            < n by {
            if j < before.len() {
                assert(attempts[j] == before[j]);
            }
        }
    }
}

/// Whether `full` bounds what a perfect correlation scores in the streams.
pub open spec fn scores_within<M, P, S: SymbolStream<M>>(
    trials: Seq<SchTrial<S, P>>,
    full: u32,
) -> bool {
    forall|i: int|
        0 <= i < trials.len() ==> (#[trigger] trials[i]).symbols.full_score() <= full
}

/// Looks for a synchronisation burst in streams sampled at different phases;
/// bursts that score at least `bar` are candidates for decoding.
pub fn estimate_sch_sync_candidate<M: PathMetric, P: Copy, S: SymbolStream<M>>(
    trials: &[SchTrial<S, P>],
    bar: u32,
    threshold: u32,
) -> (r: (SchSync<M, P>, Vec<SchCandidate<M, P>>))
    requires
        forall|i: int|
            0 <= i < trials@.len() ==> (#[trigger] trials@[i]).symbols.training() == 64
                && trials@[i].symbols.symbols() <= isize::MAX,
    ensures
        ({
            let search = searched::<M, P, S>(trials@, bar, trials@.len());
            &&& is_best_first(candidate_views(r.1@), search.candidates)
            &&& r.0 == sch_sync_of(search, candidate_views(r.1@), threshold)
        }),
        forall|full: u32|
            #[trigger] scores_within::<M, P, S>(trials@, full) ==> r.0.best_score <= full,
        r.0.correlation matches Some(c) ==> c <= r.0.best_score,
{
    let mut search = SchSearch::<M, P>::new();
    for n in 0..trials.len()
        invariant
            forall|i: int|
                0 <= i < trials@.len() ==> (#[trigger] trials@[i]).symbols.training() == 64
                    && trials@[i].symbols.symbols() <= isize::MAX,
            search@ == searched::<M, P, S>(trials@, bar, n as nat),
            forall|full: u32|
                #[trigger] scores_within::<M, P, S>(trials@, full) ==> search.best_score <= full,
    {
        let trial = &trials[n];
        assert(trials@[n as int].symbols.training() == 64);
        search.scan(&trial.symbols, trial.phase, bar);
    }
    let ghost view = search@;
    let r = finish_sch_search(search, threshold);
    proof {
        search_is_topped::<M, P, S>(trials@, bar, trials@.len());
        report_is_topped(view, candidate_views(r.1@), threshold);
    }
    r
}

/// Whether a recording is searched for synchronisation bursts: its carrier is
/// in view, the sample rate is high enough, and it is long enough.
pub fn sch_worth_searching(
    carrier_visible: bool,
    sample_rate_ok: bool,
    samples: usize,
    rate_positive: bool,
    symbol_rate_met: bool,
) -> (worth: bool)
    ensures
        worth == (carrier_visible && sample_rate_ok && samples >= 256 && rate_positive
            && symbol_rate_met),
{
    carrier_visible && sample_rate_ok && samples >= 256 && rate_positive && symbol_rate_met
}

proof fn passing_attempt_is_listed<M: PathMetric, P>(
    list: Seq<SchCandidateView<M, P>>,
    n: nat,
    i: int,
)
    requires
        0 <= i < n,
        sch_best(list[i].burst) matches Some(d) && d.parity_ok,
    ensures
        exists|j: int|
            0 <= j < sch_attempts(list, n).len() && (#[trigger] sch_attempts(
                list,
                n,
            )[j]).1.parity_ok,
    decreases n,
{
    let attempts = sch_attempts(list, n);
    let before = sch_attempts(list, (n - 1) as nat);
    if i == n - 1 {
        assert(attempts[before.len() as int].1.parity_ok);
    } else {
        passing_attempt_is_listed(list, (n - 1) as nat, i);
        let j = choose|j: int| 0 <= j < before.len() && (#[trigger] before[j]).1.parity_ok;
        assert(attempts[j] == before[j]);
    }
}

/// A good burst is not lost: where one of the candidates of a search that saw
/// a correlation of at least the threshold passes its parity check, what is
/// reported passes it.
pub proof fn passing_burst_is_reported<M: PathMetric, P>(
    search: SchSearchView<M, P>,
    sorted: Seq<SchCandidateView<M, P>>,
    threshold: u32,
    i: int,
)
    requires
        0 < search.best_score,
        threshold <= search.best_score,
        0 <= i < sorted.len(),
        sch_best(sorted[i].burst) matches Some(d) && d.parity_ok,
    ensures
        sch_sync_of(search, sorted, threshold).decode matches Some(d) && d.parity_ok,
{
    passing_attempt_is_listed(sorted, sorted.len(), i);
    let attempts = sch_attempts(sorted, sorted.len());
    let j = choose|j: int| 0 <= j < attempts.len() && (#[trigger] attempts[j]).1.parity_ok;
    let ranks = attempt_ranks(attempts);
    assert(ranks[j].ok);
    passing_attempt_is_chosen(ranks, j);
}

/// The correlation of a scan is the highest there is.
pub proof fn scan_finds_the_highest<M, P, S: SymbolStream<M>>(
    search: SchSearchView<M, P>,
    stream: &S,
    phase: P,
    bar: u32,
    n: nat,
    at: int,
)
    requires
        0 <= at < n,
    ensures
        scanned(search, stream, phase, bar, n).best_score >= search.best_score,
        scanned(search, stream, phase, bar, n).best_score >= score_of(stream, at),
    decreases n,
{
    assert(scanned(search, stream, phase, bar, 0) == search);
    if n > 1 {
        let before = if at < n - 1 {
            at
        } else {
            0
        };
        scan_finds_the_highest(search, stream, phase, bar, (n - 1) as nat, before);
    }
}

proof fn neighbour_is_first<M, P>(
    list: Seq<SchCandidateView<M, P>>,
    offset: usize,
    from: int,
    near: int,
)
    requires
        0 <= from <= near < list.len(),
        same_burst(list[near].symbol_offset, offset),
        forall|i: int| from <= i < near ==> !same_burst((#[trigger] list[i]).symbol_offset, offset),
    ensures
        sch_neighbour(list, offset, from) == Some(near),
    decreases near - from,
{
    if from < near {
        neighbour_is_first(list, offset, from + 1, near);
    }
}

/// Of candidates for one burst, which start at most six symbols apart, the
/// better one stays; the others are not touched.
pub proof fn one_burst_has_one_candidate<M, P>(
    list: Seq<SchCandidateView<M, P>>,
    candidate: SchCandidateView<M, P>,
    near: int,
    other: int,
)
    requires
        list.len() <= 18,
        0 <= near < list.len(),
        -6 <= list[near].symbol_offset - candidate.symbol_offset <= 6,
        forall|i: int|
            0 <= i < near ==> !(-6 <= (#[trigger] list[i]).symbol_offset - candidate.symbol_offset
                <= 6),
        0 <= other < list.len(),
    ensures
        sch_offered(list, candidate).len() == list.len(),
        sch_offered(list, candidate)[other] == if other == near && candidate.score
            > list[near].score {
            candidate
        } else {
            list[other]
        },
{
    neighbour_is_first(list, candidate.symbol_offset, 0, near);
}

/// A candidate for another burst joins while there are fewer than eighteen; then
/// it takes the place of the first of the weakest, if it is better.
pub proof fn another_burst_has_its_own_candidate<M, P>(
    list: Seq<SchCandidateView<M, P>>,
    candidate: SchCandidateView<M, P>,
    low: int,
)
    requires
        list.len() <= 18,
        forall|i: int|
            0 <= i < list.len() ==> !(-6 <= (#[trigger] list[i]).symbol_offset
                - candidate.symbol_offset <= 6),
        list.len() == 18 ==> 0 <= low < 18,
        list.len() == 18 ==> forall|i: int|
            0 <= i < 18 ==> list[low].score <= (#[trigger] list[i]).score,
        list.len() == 18 ==> forall|i: int|
            0 <= i < low ==> list[low].score < (#[trigger] list[i]).score,
    ensures
        sch_offered(list, candidate) == if list.len() < 18 {
            list.push(candidate)
        } else if candidate.score > list[low].score {
            list.update(low, candidate)
        } else {
            list
        },
{
    sch_neighbour_from(list, candidate.symbol_offset, list.len() as int);
    if list.len() == 18 {
        let scores = view_scores(list);
        assert forall|i: int| 0 <= i < 18 implies scores[low] <= #[trigger] scores[i] by {
            assert(list[i].score == scores[i]);
        }
        assert forall|i: int| 0 <= i < low implies scores[low] < #[trigger] scores[i] by {
            assert(list[i].score == scores[i]);
        }
        first_lowest_is_weakest(scores, low);
    }
}

proof fn offered_members<M, P>(
    list: Seq<SchCandidateView<M, P>>,
    candidate: SchCandidateView<M, P>,
    k: int,
)
    requires
        list.len() <= 18,
        0 <= k < sch_offered(list, candidate).len(),
    ensures
        sch_offered(list, candidate).len() <= 18,
        sch_offered(list, candidate)[k] == candidate || (k < list.len() && sch_offered(
            list,
            candidate,
        )[k] == list[k]),
{
    let near = sch_neighbour(list, candidate.symbol_offset, 0);
    sch_neighbour_bounds(list, candidate.symbol_offset, 0);
    placing_keeps_the_best(view_scores(list), near, candidate.score, 18);
}

/// What one stream adds to a search. Either no place correlates better than what
/// was seen before, or the best is the first place with the highest
/// correlation, and the burst starts 42 symbols before it.
proof fn scan_keeps_the_first_best<M, P, S: SymbolStream<M>>(
    search: SchSearchView<M, P>,
    stream: &S,
    phase: P,
    bar: u32,
    n: nat,
)
    requires
        n <= isize::MAX,
    ensures
        ({
            let after = scanned(search, stream, phase, bar, n);
            ||| {
                &&& after.best_score == search.best_score
                &&& after.best_offset == search.best_offset
                &&& after.best_phase == search.best_phase
                &&& forall|at: int|
                    0 <= at < n ==> #[trigger] score_of(stream, at) <= search.best_score
            }
            ||| {
                &&& after.best_score > search.best_score
                &&& after.best_phase == Some(phase)
                &&& exists|at: int|
                    {
                        &&& 0 <= at < n
                        &&& after.best_score == #[trigger] score_of(stream, at)
                        &&& after.best_offset == Some((at - 42) as isize)
                        &&& forall|k: int|
                            0 <= k < at ==> #[trigger] score_of(stream, k) < after.best_score
                        &&& forall|k: int|
                            0 <= k < n ==> #[trigger] score_of(stream, k) <= after.best_score
                    }
            }
        }),
    decreases n,
{
    if n > 0 {
        scan_keeps_the_first_best(search, stream, phase, bar, (n - 1) as nat);
        let before = scanned(search, stream, phase, bar, (n - 1) as nat);
        let after = scanned(search, stream, phase, bar, n);
        let at = n - 1;
        if score_of(stream, at) > before.best_score {
            assert(after.best_score == score_of(stream, at));
            assert(after.best_offset == Some((at - 42) as isize));
        } else if before.best_score > search.best_score {
            let held = choose|held: int|
                {
                    &&& 0 <= held < n - 1
                    &&& before.best_score == #[trigger] score_of(stream, held)
                    &&& before.best_offset == Some((held - 42) as isize)
                    &&& forall|k: int|
                        0 <= k < held ==> #[trigger] score_of(stream, k) < before.best_score
                    &&& forall|k: int|
                        0 <= k < n - 1 ==> #[trigger] score_of(stream, k) <= before.best_score
                };
            assert(after.best_score == score_of(stream, held));
        }
    }
}

/// A search looks at every place of every stream of at least 150 symbols: its
/// best correlation is at least that of any of them.
pub proof fn search_looks_everywhere<M, P, S: SymbolStream<M>>(
    trials: Seq<SchTrial<S, P>>,
    bar: u32,
    n: nat,
    i: int,
    at: int,
)
    requires
        0 <= i < n <= trials.len(),
        trials[i].symbols.symbols() >= 150,
        0 <= at,
        at + 64 <= trials[i].symbols.symbols(),
    ensures
        searched::<M, P, S>(trials, bar, n).best_score >= trials[i].symbols.score_at(at as usize),
    decreases n,
{
    let trial = trials[n - 1];
    let before = searched::<M, P, S>(trials, bar, (n - 1) as nat);
    let places = scan_places(&trial.symbols);
    if i < n - 1 {
        search_looks_everywhere::<M, P, S>(trials, bar, (n - 1) as nat, i, at);
        if places > 0 {
            scan_finds_the_highest(before, &trial.symbols, trial.phase, bar, places, 0);
        }
    } else {
        scan_finds_the_highest(before, &trial.symbols, trial.phase, bar, places, at);
    }
}

/// The best correlation of a search is the first of the highest: it was seen at
/// a place of a stream of at least 150 symbols, where nothing before it
/// correlates as well; with it come the start of the burst there, 42 symbols
/// earlier, and the phase of the stream. Or nothing correlates at all.
pub proof fn search_reports_the_first_best<M, P, S: SymbolStream<M>>(
    trials: Seq<SchTrial<S, P>>,
    bar: u32,
    n: nat,
)
    requires
        n <= trials.len(),
        forall|i: int|
            0 <= i < trials.len() ==> (#[trigger] trials[i]).symbols.symbols() <= isize::MAX,
    ensures
        ({
            let found = searched::<M, P, S>(trials, bar, n);
            ||| found.best_score == 0 && found.best_offset is None && found.best_phase is None
            ||| exists|i: int, at: int|
                {
                    let stream = trials[i].symbols;
                    &&& 0 <= i < n
                    &&& stream.symbols() >= 150
                    &&& 0 <= at
                    &&& at + 64 <= stream.symbols()
                    &&& found.best_score == #[trigger] trials[i].symbols.score_at(at as usize)
                    &&& found.best_score > 0
                    &&& found.best_offset == Some((at - 42) as isize)
                    &&& found.best_phase == Some(trials[i].phase)
                    &&& forall|k: int|
                        0 <= k < at ==> #[trigger] score_of(&stream, k) < found.best_score
                }
        }),
    decreases n,
{
    if n > 0 {
        let m = (n - 1) as nat;
        let trial = trials[n - 1];
        let stream = trial.symbols;
        let before = searched::<M, P, S>(trials, bar, m);
        let found = searched::<M, P, S>(trials, bar, n);
        search_reports_the_first_best::<M, P, S>(trials, bar, m);
        assert(trials[n - 1].symbols.symbols() <= isize::MAX);
        scan_keeps_the_first_best(before, &stream, trial.phase, bar, scan_places(&stream));
        if found.best_score > before.best_score {
            let at = choose|at: int|
                {
                    &&& 0 <= at < scan_places(&stream)
                    &&& found.best_score == #[trigger] score_of(&stream, at)
                    &&& found.best_offset == Some((at - 42) as isize)
                    &&& forall|k: int|
                        0 <= k < at ==> #[trigger] score_of(&stream, k) < found.best_score
                };
            assert(found.best_score == trials[n - 1].symbols.score_at(at as usize));
        } else if before.best_score > 0 {
            let (i, at) = choose|i: int, at: int|
                {
                    let s = trials[i].symbols;
                    &&& 0 <= i < m
                    &&& s.symbols() >= 150
                    &&& 0 <= at
                    &&& at + 64 <= s.symbols()
                    &&& before.best_score == #[trigger] trials[i].symbols.score_at(at as usize)
                    &&& before.best_score > 0
                    &&& before.best_offset == Some((at - 42) as isize)
                    &&& before.best_phase == Some(trials[i].phase)
                    &&& forall|k: int|
                        0 <= k < at ==> #[trigger] score_of(&s, k) < before.best_score
                };
            assert(found.best_score == trials[i].symbols.score_at(at as usize));
        }
    }
}

proof fn scan_offers<M, P, S: SymbolStream<M>>(
    search: SchSearchView<M, P>,
    stream: &S,
    phase: P,
    bar: u32,
    n: nat,
    at: int,
)
    requires
        search.candidates.len() <= 18,
    ensures
        ({
            let after = scanned(search, stream, phase, bar, n).candidates;
            &&& after.len() <= 18
            &&& top_score(view_scores(after)) >= top_score(view_scores(search.candidates))
            &&& 42 <= at < n && at - 42 + 148 < stream.symbols() && score_of(stream, at) >= bar
                ==> top_score(view_scores(after)) >= score_of(stream, at)
        }),
    decreases n,
{
    if n > 0 {
        scan_offers(search, stream, phase, bar, (n - 1) as nat, at);
        let k = n - 1;
        offering_keeps_the_best(
            scanned(search, stream, phase, bar, (n - 1) as nat).candidates,
            SchCandidateView {
                score: score_of(stream, k),
                symbol_offset: (k - 42) as usize,
                sample_phase: phase,
                burst: burst_of(stream, k - 42),
            },
        );
    }
}

/// A burst that correlates well enough is a candidate: where the stream holds
/// it, 42 symbols before the place, and one symbol more, it is offered, and the
/// candidates score as high as it.
pub proof fn well_correlated_bursts_are_offered<M, P, S: SymbolStream<M>>(
    trials: Seq<SchTrial<S, P>>,
    bar: u32,
    n: nat,
    i: int,
    at: int,
)
    requires
        0 <= i < n <= trials.len(),
        42 <= at,
        at - 42 + 148 + 1 <= trials[i].symbols.symbols(),
        trials[i].symbols.symbols() >= 150,
        trials[i].symbols.score_at(at as usize) >= bar,
    ensures
        searched::<M, P, S>(trials, bar, n).candidates.len() <= 18,
        top_score(view_scores(searched::<M, P, S>(trials, bar, n).candidates))
            >= trials[i].symbols.score_at(at as usize),
    decreases n,
{
    let m = (n - 1) as nat;
    let trial = trials[n - 1];
    let before = searched::<M, P, S>(trials, bar, m);
    search_is_topped::<M, P, S>(trials, bar, m);
    if i < m {
        well_correlated_bursts_are_offered::<M, P, S>(trials, bar, m, i, at);
    }
    scan_offers(before, &trial.symbols, trial.phase, bar, scan_places(&trial.symbols), at);
}

/// While a stream is scanned, a burst that correlates well enough is offered as
/// it stands in the stream: its start, the phase, and what was demodulated.
pub proof fn bursts_are_offered_as_they_stand<M, P, S: SymbolStream<M>>(
    search: SchSearchView<M, P>,
    stream: &S,
    phase: P,
    bar: u32,
    start: int,
)
    requires
        0 <= start,
        start + 148 < stream.symbols(),
        stream.score_at((start + 42) as usize) >= bar,
    ensures
        scanned(search, stream, phase, bar, (start + 43) as nat).candidates == sch_offered(
            scanned(search, stream, phase, bar, (start + 42) as nat).candidates,
            SchCandidateView {
                score: stream.score_at((start + 42) as usize),
                symbol_offset: start as usize,
                sample_phase: phase,
                burst: stream.burst_at(start as usize)@,
            },
        ),
{
}

/// Whether a candidate is a burst of a stream, as it was demodulated there, and
/// has the score of its training sequence, which is enough.
pub open spec fn is_burst_of<M, P, S: SymbolStream<M>>(
    candidate: SchCandidateView<M, P>,
    trial: SchTrial<S, P>,
    bar: u32,
) -> bool {
    let start = candidate.symbol_offset;
    &&& start + 149 <= trial.symbols.symbols()
    &&& candidate.score == trial.symbols.score_at((start + 42) as usize)
    &&& candidate.score >= bar
    &&& candidate.burst == trial.symbols.burst_at(start)@
    &&& candidate.sample_phase == trial.phase
}

/// Every candidate of a search is a burst of one of the streams.
pub proof fn candidates_are_bursts<M, P, S: SymbolStream<M>>(
    trials: Seq<SchTrial<S, P>>,
    bar: u32,
    n: nat,
    k: int,
)
    requires
        n <= trials.len(),
        0 <= k < searched::<M, P, S>(trials, bar, n).candidates.len(),
    ensures
        exists|i: int|
            0 <= i < n && is_burst_of::<M, P, S>(
                searched::<M, P, S>(trials, bar, n).candidates[k],
                #[trigger] trials[i],
                bar,
            ),
    decreases n,
{
    if n > 0 {
        let m = (n - 1) as nat;
        let trial = trials[n - 1];
        let before = searched::<M, P, S>(trials, bar, m);
        search_is_topped::<M, P, S>(trials, bar, m);
        scan_members(before, trial, bar, scan_places(&trial.symbols), k);
        let c = searched::<M, P, S>(trials, bar, n).candidates[k];
        if k < before.candidates.len() && c == before.candidates[k] {
            candidates_are_bursts::<M, P, S>(trials, bar, m, k);
            let i = choose|i: int|
                0 <= i < m && is_burst_of::<M, P, S>(c, #[trigger] trials[i], bar);
            assert(is_burst_of::<M, P, S>(c, trials[i], bar));
        } else {
            assert(is_burst_of::<M, P, S>(c, trials[n - 1], bar));
        }
    }
}

proof fn scan_members<M, P, S: SymbolStream<M>>(
    search: SchSearchView<M, P>,
    trial: SchTrial<S, P>,
    bar: u32,
    n: nat,
    k: int,
)
    requires
        search.candidates.len() <= 18,
        0 <= k < scanned(search, &trial.symbols, trial.phase, bar, n).candidates.len(),
    ensures
        ({
            let c = scanned(search, &trial.symbols, trial.phase, bar, n).candidates[k];
            ||| k < search.candidates.len() && c == search.candidates[k]
            ||| is_burst_of::<M, P, S>(c, trial, bar)
        }),
    decreases n,
{
    if n > 0 {
        let m = (n - 1) as nat;
        let stream = &trial.symbols;
        let at = n - 1;
        let before = scanned(search, stream, trial.phase, bar, m);
        scan_offers(search, stream, trial.phase, bar, m, 0);
        let score = score_of(stream, at);
        if score >= bar && at >= 42 && at - 42 + 148 < stream.symbols() {
            let candidate = SchCandidateView {
                score,
                symbol_offset: (at - 42) as usize,
                sample_phase: trial.phase,
                burst: burst_of(stream, at - 42),
            };
            offered_members(before.candidates, candidate, k);
            if k < before.candidates.len() {
                scan_members(search, trial, bar, m, k);
            }
        } else {
            scan_members(search, trial, bar, m, k);
        }
    }
}

/// The first candidate that passes its parity check is the one reported.
pub proof fn first_passing_candidate_is_reported<M: PathMetric, P>(
    list: Seq<SchCandidateView<M, P>>,
    k: int,
)
    requires
        0 <= k < list.len(),
        sch_best(list[k].burst) matches Some(d) && d.parity_ok,
        forall|j: int|
            0 <= j < k ==> !(sch_best((#[trigger] list[j]).burst) matches Some(d) && d.parity_ok),
    ensures
        sch_choice(list) == Some((k, sch_best(list[k].burst)->0)),
{
    let ranks = attempt_ranks(sch_attempts(list, list.len()));
    passing_prefix(list, k as nat);
    let skipped = sch_attempts(list, k as nat);
    let through = sch_attempts(list, (k + 1) as nat);
    attempts_grow(list, (k + 1) as nat, list.len());
    let at = skipped.len() as int;
    assert(through[at] == (k, sch_best(list[k].burst)->0));
    assert(sch_attempts(list, list.len())[at] == through[at]);
    assert forall|i: int| 0 <= i < at implies !(#[trigger] ranks[i]).ok by {
        assert(sch_attempts(list, list.len())[i] == through[i]);
        assert(through[i] == skipped[i]);
    }
    first_ok_skips(ranks, 0, at);
}

proof fn passing_prefix<M: PathMetric, P>(list: Seq<SchCandidateView<M, P>>, n: nat)
    requires
        n <= list.len(),
        forall|j: int|
            0 <= j < n ==> !(sch_best((#[trigger] list[j]).burst) matches Some(d) && d.parity_ok),
    ensures
        forall|i: int|
            0 <= i < sch_attempts(list, n).len() ==> !(#[trigger] sch_attempts(
                list,
                n,
            )[i]).1.parity_ok,
    decreases n,
{
    if n > 0 {
        let m = (n - 1) as nat;
        passing_prefix(list, m);
        let before = sch_attempts(list, m);
        let attempts = sch_attempts(list, n);
        assert(list[n - 1] == list[n - 1]);
        assert forall|i: int| 0 <= i < attempts.len() implies !(#[trigger]
        attempts[i]).1.parity_ok by {
            if i < before.len() {
                assert(attempts[i] == before[i]);
            }
        }
    }
}

proof fn attempts_grow<M: PathMetric, P>(list: Seq<SchCandidateView<M, P>>, m: nat, n: nat)
    requires
        m <= n,
    ensures
        sch_attempts(list, m).is_prefix_of(sch_attempts(list, n)),
    decreases n - m,
{
    if m < n {
        attempts_grow(list, m, (n - 1) as nat);
    }
}

/// What is reported was decoded from the candidate that comes with it, and there
/// is no report just where no candidate could be decoded.
pub proof fn report_is_of_a_candidate<M: PathMetric, P>(
    list: Seq<SchCandidateView<M, P>>,
    j: int,
)
    ensures
        match sch_choice(list) {
            Some((i, decode)) => 0 <= i < list.len() && sch_best(list[i].burst) == Some(decode),
            None => 0 <= j < list.len() ==> sch_best(list[j].burst) is None,
        },
{
    let attempts = sch_attempts(list, list.len());
    let ranks = attempt_ranks(attempts);
    attempts_are_decodes(list, list.len(), j);
    choice_bounds(ranks);
    choice_is_made_among_attempts(ranks, 0);
    if let Some(k) = chosen(ranks) {
        assert(attempts[k] == attempts[k]);
    }
}

proof fn attempts_are_decodes<M: PathMetric, P>(
    list: Seq<SchCandidateView<M, P>>,
    n: nat,
    j: int,
)
    ensures
        forall|k: int|
            0 <= k < sch_attempts(list, n).len() ==> {
                let a = #[trigger] sch_attempts(list, n)[k];
                0 <= a.0 < n && sch_best(list[a.0].burst) == Some(a.1)
            },
        sch_attempts(list, n).len() == 0 && 0 <= j < n ==> sch_best(list[j].burst) is None,
    decreases n,
{
    if n > 0 {
        let m = (n - 1) as nat;
        attempts_are_decodes(list, m, j);
        let before = sch_attempts(list, m);
        let attempts = sch_attempts(list, n);
        assert forall|k: int| 0 <= k < attempts.len() implies {
            let a = #[trigger] attempts[k];
            0 <= a.0 < n && sch_best(list[a.0].burst) == Some(a.1)
        } by {
            if k < before.len() {
                assert(attempts[k] == before[k]);
            }
        }
    }
}

/// What a search reports. Nothing where nothing correlates. Else the best
/// correlation decides whether a burst is detected, and only then is one
/// decoded. One that passes its parity check brings its own score, start and
/// phase; otherwise those of the best correlation are reported.
pub proof fn passing_burst_brings_its_timing<M: PathMetric, P>(
    search: SchSearchView<M, P>,
    sorted: Seq<SchCandidateView<M, P>>,
    threshold: u32,
)
    ensures
        ({
            let sync = sch_sync_of(search, sorted, threshold);
            &&& sync.best_score == search.best_score
            &&& sync.correlation is Some <==> search.best_score > 0
            &&& sync.detected <==> search.best_score > 0 && search.best_score >= threshold
            &&& !sync.detected ==> sync.decode is None
            &&& sync.detected && sync.decode is None ==> forall|j: int|
                0 <= j < sorted.len() ==> sch_best((#[trigger] sorted[j]).burst) is None
            &&& sync.decode is Some && sync.decode->0.parity_ok ==> exists|i: int|
                {
                    &&& 0 <= i < sorted.len()
                    &&& sch_best((#[trigger] sorted[i]).burst) == Some(sync.decode->0)
                    &&& sync.correlation == Some(sorted[i].score)
                    &&& sync.symbol_offset == Some(sorted[i].symbol_offset as isize)
                    &&& sync.sample_phase == Some(sorted[i].sample_phase)
                }
            &&& search.best_score > 0 && !(sync.decode is Some && sync.decode->0.parity_ok) ==> {
                &&& sync.correlation == Some(search.best_score)
                &&& sync.symbol_offset == search.best_offset
                &&& sync.sample_phase == search.best_phase
            }
        }),
{
    let sync = sch_sync_of(search, sorted, threshold);
    report_is_of_a_candidate(sorted, 0);
    if sync.detected && sync.decode is None {
        assert forall|j: int| 0 <= j < sorted.len() implies sch_best(
            (#[trigger] sorted[j]).burst,
        ) is None by {
            report_is_of_a_candidate(sorted, j);
        }
    }
    if sync.detected {
        if let Some((i, decode)) = sch_choice(sorted) {
            if decode.parity_ok {
                assert(sch_best(sorted[i].burst) == Some(decode));
            }
        }
    }
}

/// Sorting the candidates of a search puts higher scores first, leaves equal
/// ones in the order of arrival, and loses none.
pub proof fn candidates_are_tried_best_first<M, P>(
    sorted: Seq<SchCandidateView<M, P>>,
    candidates: Seq<SchCandidateView<M, P>>,
    i: int,
    j: int,
)
    requires
        is_best_first(sorted, candidates),
        candidates.len() <= 18,
        0 <= i < j < candidates.len(),
    ensures
        sorted.len() == candidates.len(),
        sorted[i].score >= sorted[j].score,
        sorted.contains(candidates[i]),
        candidates.contains(sorted[i]),
{
    let scores = view_scores(candidates);
    let order = choose|order: Seq<usize>|
        #[trigger] is_descending_order(order, scores) && sorted == reordered(candidates, order);
    best_first_is_descending(order, scores, i, j);
    descending_order_is_complete(order, scores, i as usize);
    let k = choose|k: int| 0 <= k < order.len() && order[k] == i as usize;
    assert(sorted[k] == candidates[i]);
    assert(sorted[i] == candidates[order[i] as int]);
    assert(scores[order[i] as int] == sorted[i].score);
    assert(scores[order[j] as int] == sorted[j].score);
}

/// Where no candidate passes its parity check, what is reported is the decode
/// whose check leaves the fewest set bits.
pub proof fn failing_report_has_the_fewest_errors<M: PathMetric, P>(
    list: Seq<SchCandidateView<M, P>>,
    j: int,
)
    requires
        0 <= j < list.len(),
        sch_best(list[j].burst) is Some,
    ensures
        sch_choice(list) matches Some((_, d)) && {
            let other = sch_best(list[j].burst)->0;
            &&& other.parity_ok ==> d.parity_ok
            &&& !d.parity_ok ==> ones(d.parity_syndrome as nat) <= ones(
                other.parity_syndrome as nat,
            )
        },
{
    let attempts = sch_attempts(list, list.len());
    let ranks = attempt_ranks(attempts);
    let through = sch_attempts(list, (j + 1) as nat);
    attempts_grow(list, (j + 1) as nat, list.len());
    let at = through.len() - 1;
    assert(through[at] == (j, sch_best(list[j].burst)->0));
    assert(attempts[at] == through[at]);
    choice_is_made_among_attempts(ranks, at);
    if exists|i: int| 0 <= i < ranks.len() && (#[trigger] ranks[i]).ok {
        let i = choose|i: int| 0 <= i < ranks.len() && (#[trigger] ranks[i]).ok;
        passing_attempt_is_chosen(ranks, i);
    } else {
        assert(!ranks[at].ok);
        assert(!ranks[chosen(ranks)->0].ok);
    }
}

} // verus!
