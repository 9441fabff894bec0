//! What every strategy shares: the best state seen so far, the verdict on each
//! new candidate, and the timeout rule.

use vstd::prelude::*;
use crate::score::{Score, COUNTEREXAMPLE_KEY, NEG_INFINITY_KEY};
use crate::state::{State, StateView};

verus! {

/// What a candidate did to the best state seen so far.
#[derive(PartialEq, Eq, Structural, Clone, Copy, Debug)]
pub enum Verdict {
    /// The candidate was no better: nothing changed, nothing is reported.
    Unchanged,
    /// The candidate is the new best: a progress event is due.
    Progress,
    /// The candidate is the new best and refutes the conjecture: a progress
    /// event and a counterexample event are due, and the strategy returns.
    Counterexample,
}

/// The verdict on a candidate of score `score` against a best of `best`.
pub open spec fn verdict_of(best: Score, score: Score) -> Verdict {
    if score.key <= best.key {
        Verdict::Unchanged
    } else if score.key > COUNTEREXAMPLE_KEY {
        Verdict::Counterexample
    } else {
        Verdict::Progress
    }
}

/// Has a run that started `elapsed_ms` milliseconds ago used up a timeout of
/// `timeout_ms` milliseconds? A timeout of zero or less never ends.
pub fn timed_out(elapsed_ms: u64, timeout_ms: i64) -> (b: bool)
    ensures
        b == (timeout_ms > 0 && elapsed_ms > timeout_ms),
{
    timeout_ms > 0 && elapsed_ms as u128 > timeout_ms as u128
}

/// The best state that a strategy has seen, with the score it was given.
pub struct Incumbent {
    best_score: Score,
    best_state: State,
}

/// What an [`Incumbent`] stands for.
pub struct IncumbentView {
    /// The best score so far.
    pub best_score: Score,
    /// The state that was given that score.
    pub best_state: StateView,
}

impl View for Incumbent {
    type V = IncumbentView;

    closed spec fn view(&self) -> IncumbentView {
        IncumbentView { best_score: self.best_score, best_state: self.best_state@ }
    }
}

impl IncumbentView {
    /// The incumbent after a candidate `state` of score `score` was offered:
    /// a strictly better candidate takes the place, stamped with its score.
    pub open spec fn offer(self, state: StateView, score: Score) -> IncumbentView {
        if score.key > self.best_score.key {
            IncumbentView {
                best_score: score,
                best_state: StateView { best_score: score, ..state },
            }
        } else {
            self
        }
    }
}

impl Incumbent {
    /// An incumbent that any score beats, holding `state` until then.
    pub fn new(state: State) -> (inc: Incumbent)
        ensures
            inc@.best_score.key == NEG_INFINITY_KEY,
            inc@.best_state == state@,
    {
        Incumbent { best_score: Score::neg_infinity(), best_state: state }
    }

    /// An incumbent that holds `state` with the score it was given.
    pub fn with_score(state: State, score: Score) -> (inc: Incumbent)
        ensures
            inc@.best_score == score,
            inc@.best_state == state@,
    {
        Incumbent { best_score: score, best_state: state }
    }

    /// The best score so far.
    pub fn best_score(&self) -> (s: Score)
        ensures
            s == self@.best_score,
    {
        self.best_score
    }

    /// The best state so far.
    pub fn best_state(&self) -> (s: &State)
        ensures
            s@ == self@.best_state,
    {
        &self.best_state
    }

    /// Gives up the best state.
    pub fn into_state(self) -> (s: State)
        ensures
            s@ == self@.best_state,
    {
        self.best_state
    }

    /// Offers a candidate with the score it was given. A strictly better one
    /// becomes the best state, stamped with its score; the verdict says what is
    /// to be reported.
    pub fn offer(&mut self, state: &State, score: Score) -> (v: Verdict)
        ensures
            v == verdict_of(old(self)@.best_score, score),
            final(self)@ == old(self)@.offer(state@, score),
    {
        if score.exceeds(self.best_score) {
            let mut held = state.clone();
            held.set_best_score(score);
            self.best_score = score;
            self.best_state = held;
            if score.is_counterexample() {
                Verdict::Counterexample
            } else {
                Verdict::Progress
            }
        } else {
            Verdict::Unchanged
        }
    }
}

/// The state that an incumbent holds is the one that was offered with the
/// score it holds: once a score above the counterexample bound is recorded,
/// the matrix returned is the matrix that earned it.
pub proof fn lemma_offer_keeps_witness(inc: IncumbentView, state: StateView, score: Score)
    ensures
        verdict_of(inc.best_score, score) != Verdict::Unchanged ==> {
            &&& inc.offer(state, score).best_state.adj == state.adj
            &&& inc.offer(state, score).best_state.conj == state.conj
            &&& inc.offer(state, score).best_score == score
            &&& inc.offer(state, score).best_state.best_score == score
        },
        verdict_of(inc.best_score, score) == Verdict::Unchanged ==> inc.offer(state, score) == inc,
        verdict_of(inc.best_score, score) == Verdict::Counterexample <==> score.key
            > inc.best_score.key && score.key > COUNTEREXAMPLE_KEY,
        inc.offer(state, score).best_score.key >= inc.best_score.key,
{
}

} // verus!
