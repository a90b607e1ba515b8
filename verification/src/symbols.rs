//! Symbol streams: the demodulator as burst search sees it.

use crate::ranking::{top_score, top_score_is_max};
use crate::soft::SoftBit;
use crate::viterbi::PathMetric;
use vstd::prelude::*;

verus! {

/// Symbols in a burst.
pub const BURST_SYMBOLS: usize = 148;

/// A run of received symbols that can be searched for one training sequence.
///
/// Correlations are real numbers from zero to one; a score stands for one by
/// an integer that orders the same way, zero for zero.
pub trait SymbolStream<M> {
    /// How many symbols there are.
    spec fn symbols(&self) -> usize;

    /// How many symbols the training sequence has.
    spec fn training(&self) -> usize;

    /// How well the symbols from `at` on correlate with the training sequence.
    spec fn score_at(&self, at: usize) -> u32;

    /// The score of a perfect correlation.
    spec fn full_score(&self) -> u32;

    /// The burst that starts at symbol `at`, demodulated.
    spec fn burst_at(&self, at: usize) -> Vec<SoftBit<M>>;

    fn symbol_count(&self) -> (n: usize)
        ensures
            n == self.symbols(),
    ;

    fn correlation(&self, at: usize) -> (score: u32)
        requires
            at + self.training() <= self.symbols(),
        ensures
            score == self.score_at(at),
            score <= self.full_score(),
    ;

    fn soft_burst(&self, at: usize) -> (burst: Vec<SoftBit<M>>)
        requires
            at + 148 <= self.symbols(),
        ensures
            burst@ == self.burst_at(at)@,
    ;
}

/// How well the symbols from `at` on correlate with the training sequence.
pub open spec fn score_of<M, S: SymbolStream<M>>(stream: &S, at: int) -> u32 {
    stream.score_at(at as usize)
}

/// The burst that starts at symbol `at`.
pub open spec fn burst_of<M, S: SymbolStream<M>>(stream: &S, at: int) -> Seq<SoftBit<M>> {
    stream.burst_at(at as usize)@
}

/// A stream whose correlations and bursts are written down: a symbol without a
/// recorded score does not correlate, one without a recorded burst starts none.
/// The highest recorded score stands for a perfect correlation.
pub struct RecordedStream<M> {
    pub count: usize,
    pub training_len: usize,
    pub scores: Vec<u32>,
    pub bursts: Vec<Vec<SoftBit<M>>>,
}

impl<M: PathMetric> SymbolStream<M> for RecordedStream<M> {
    open spec fn symbols(&self) -> usize {
        self.count
    }

    open spec fn training(&self) -> usize {
        self.training_len
    }

    open spec fn score_at(&self, at: usize) -> u32 {
        if at < self.scores@.len() {
            self.scores@[at as int]
        } else {
            0
        }
    }

    open spec fn full_score(&self) -> u32 {
        top_score(self.scores@)
    }

    open spec fn burst_at(&self, at: usize) -> Vec<SoftBit<M>> {
        if at < self.bursts@.len() {
            self.bursts@[at as int]
        } else {
            choose|none: Vec<SoftBit<M>>| none@.len() == 0
        }
    }

    fn symbol_count(&self) -> (n: usize) {
        self.count
    }

    fn correlation(&self, at: usize) -> (score: u32) {
        if at < self.scores.len() {
            proof {
                top_score_is_max(self.scores@);
            }
            self.scores[at]
        } else {
            0
        }
    }

    fn soft_burst(&self, at: usize) -> (burst: Vec<SoftBit<M>>) {
        let mut burst: Vec<SoftBit<M>> = Vec::new();
        if at < self.bursts.len() {
            let recorded = &self.bursts[at];
            let len: usize = recorded.len();
            for i in 0..len
                invariant
                    len == recorded@.len(),
                    burst@ =~= recorded@.take(i as int),
            {
                burst.push(recorded[i]);
            }
        }
        assert(burst@ =~= self.burst_at(at)@);
        burst
    }
}

} // verus!
