//! The rollout that every tree search ends in: moves are played until none is
//! open, and the best state met on the way is what the rollout returns.

use vstd::prelude::*;
use crate::graph::{legal_moves, Move};
use crate::score::{Score, COUNTEREXAMPLE_KEY};
use crate::state::{State, StateView};

verus! {

/// A rollout in progress.
pub struct Playout {
    st: State,
    best_state: State,
    best_score: Score,
    stopped: bool,
}

/// What a [`Playout`] stands for.
pub struct PlayoutView {
    /// The state that the rollout has reached.
    pub st: StateView,
    /// The best state met so far.
    pub best_state: StateView,
    /// The score of that state.
    pub best_score: Score,
    /// A score met refutes the conjecture: the rollout is over.
    pub stopped: bool,
}

impl View for Playout {
    type V = PlayoutView;

    closed spec fn view(&self) -> PlayoutView {
        PlayoutView {
            st: self.st@,
            best_state: self.best_state@,
            best_score: self.best_score,
            stopped: self.stopped,
        }
    }
}

impl PlayoutView {
    /// The moves among which the next one is chosen: none once the rollout
    /// has stopped or its state is terminal, else the moves open on the state.
    pub open spec fn moves(self) -> Seq<Move> {
        if self.stopped || self.st.terminal() {
            Seq::empty()
        } else {
            legal_moves(self.st.adj, self.st.size_terminal)
        }
    }

    /// The rollout after `m` is played.
    pub open spec fn advance(self, m: Move) -> PlayoutView {
        PlayoutView { st: self.st.play(m), ..self }
    }

    /// The rollout after its state was given `score`: a score strictly above
    /// the best makes the state the best one, stamped with the score, and a
    /// score above the counterexample bound stops the rollout.
    pub open spec fn record(self, score: Score) -> PlayoutView {
        PlayoutView {
            st: self.st,
            best_state: if score.key > self.best_score.key {
                StateView { best_score: score, ..self.st }
            } else {
                self.best_state
            },
            best_score: if score.key > self.best_score.key {
                score
            } else {
                self.best_score
            },
            stopped: self.stopped || score.key > COUNTEREXAMPLE_KEY,
        }
    }
}

impl Playout {
    /// A rollout from `st`, whose score is `score`: `st` is the best state so
    /// far.
    pub fn open(st: State, score: Score) -> (p: Playout)
        ensures
            p@ == (PlayoutView { st: st@, best_state: st@, best_score: score, stopped: false }),
    {
        let best_state = st.clone();
        Playout { st, best_state, best_score: score, stopped: false }
    }

    /// The state that the rollout has reached.
    pub fn state(&self) -> (s: &State)
        ensures
            s@ == self@.st,
    {
        &self.st
    }

    /// The score of the best state so far.
    pub fn best_score(&self) -> (s: Score)
        ensures
            s == self@.best_score,
    {
        self.best_score
    }

    /// The moves among which the next one is chosen; the rollout is over where
    /// there is none.
    pub fn moves(&self) -> (moves: Vec<Move>)
        ensures
            moves@ == self@.moves(),
    {
        if self.stopped || self.st.terminal() {
            Vec::new()
        } else {
            self.st.legal_moves()
        }
    }

    /// Plays the chosen move.
    pub fn advance(&mut self, m: Move)
        ensures
            final(self)@ == old(self)@.advance(m),
    {
        self.st.play(m);
    }

    /// Takes the score of the state reached. Says whether the rollout goes on.
    pub fn record(&mut self, score: Score) -> (goes_on: bool)
        ensures
            final(self)@ == old(self)@.record(score),
            goes_on == !final(self)@.stopped,
    {
        if score.exceeds(self.best_score) {
            let mut held = self.st.clone();
            held.set_best_score(score);
            self.best_state = held;
            self.best_score = score;
        }
        if score.is_counterexample() {
            self.stopped = true;
        }
        !self.stopped
    }

    /// Ends the rollout: the best state met.
    pub fn finish(self) -> (s: State)
        ensures
            s@ == self@.best_state,
    {
        self.best_state
    }
}

/// Begins a rollout from `st`, whose score is `score`.
pub fn playout(st: State, score: Score) -> (p: Playout)
    ensures
        p@ == (PlayoutView { st: st@, best_state: st@, best_score: score, stopped: false }),
{
    Playout::open(st, score)
}

} // verus!
