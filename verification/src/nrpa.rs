//! Nested rollout policy adaptation: each level repeats the level below a
//! fixed number of times, keeps the best sequence found, and after each
//! repetition adapts the policy along that sequence.

use vstd::prelude::*;
use crate::graph::{legal_moves, replay_from, Move};
use crate::harness::{timed_out, verdict_of, Incumbent, IncumbentView, Verdict};
use crate::score::{Score, NEG_INFINITY_KEY};
use crate::playout::{Playout, PlayoutView};
use crate::state::{lemma_play_all_keeps_wf, State, StateView};

verus! {

/// The number of repetitions of a level.
pub const PLAYOUT: usize = 100;

/// What a nested search has found, over all its levels.
pub struct NRPA {
    incumbent: Incumbent,
    timeout_ms: i64,
}

/// One step of an adaptation: the moves that were open, and the move that the
/// best sequence played among them.
pub struct TraceStep {
    pub moves: Vec<Move>,
    pub best: Move,
}

impl NRPA {
    /// The best state over all levels, with its score.
    pub closed spec fn incumbent(&self) -> IncumbentView {
        self.incumbent@
    }

    /// The timeout in milliseconds; zero or less for none.
    pub closed spec fn timeout_ms(&self) -> i64 {
        self.timeout_ms
    }

    /// A search that has seen nothing: any score beats its best, it holds the
    /// single-vertex state, and it has no timeout.
    pub fn new() -> (expe: NRPA)
        ensures
            expe.incumbent().best_score.key == NEG_INFINITY_KEY,
            expe.incumbent().best_state == StateView::initial(),
            expe.timeout_ms() == -1,
    {
        NRPA { incumbent: Incumbent::new(State::new()), timeout_ms: -1 }
    }

    /// Sets the timeout, in milliseconds.
    pub fn set_timeout(&mut self, timeout_ms: i64)
        ensures
            final(self).timeout_ms() == timeout_ms,
            final(self).incumbent() == old(self).incumbent(),
    {
        self.timeout_ms = timeout_ms;
    }

    /// The best score over all levels.
    pub fn best_yet(&self) -> (s: Score)
        ensures
            s == self.incumbent().best_score,
    {
        self.incumbent.best_score()
    }

    /// The best state over all levels.
    pub fn best_state(&self) -> (s: &State)
        ensures
            s@ == self.incumbent().best_state,
    {
        self.incumbent.best_state()
    }

    /// Is a call at `level`, made `elapsed_ms` milliseconds into the run, a
    /// single rollout? It is at level zero and once the time is up.
    pub fn is_rollout(&self, level: i8, elapsed_ms: u64) -> (b: bool)
        ensures
            b == (level <= 0 || (self.timeout_ms() > 0 && elapsed_ms > self.timeout_ms())),
    {
        level <= 0 || timed_out(elapsed_ms, self.timeout_ms)
    }

    /// Begins a rollout from `st`, whose score is `score`.
    pub fn playout(&self, st: State, score: Score) -> (p: Playout)
        ensures
            p@ == (PlayoutView { st: st@, best_state: st@, best_score: score, stopped: false }),
    {
        Playout::open(st, score)
    }

    /// Opens a level of the search at `ini_state`, whose score is `score`.
    pub fn nrpa(&self, ini_state: &State, score: Score) -> (level: NrpaLevel)
        ensures
            level@ == (NrpaLevelView { st: ini_state@, stscore: score, done: 0 }),
    {
        NrpaLevel { st: ini_state.clone(), stscore: score, done: 0 }
    }

    /// The steps along which a policy is adapted to the sequence `seq`, played
    /// from `ini_state`: for each move of the sequence the moves that were
    /// open when it was played, then the move itself.
    pub fn adapt(seq: &Vec<Move>, ini_state: &State) -> (trace: Vec<TraceStep>)
        ensures
            trace@.len() == seq@.len(),
            forall|k: int|
                0 <= k < seq@.len() ==> {
                    &&& (#[trigger] trace@[k]).best == seq@[k]
                    &&& trace@[k].moves@ == legal_moves(
                        replay_from(ini_state@.adj, seq@.take(k)),
                        ini_state@.size_terminal,
                    )
                },
    {
        let mut s = ini_state.clone();
        proof {
            use_type_invariant(ini_state);
            ini_state.lemma_wf();
        }
        let mut trace: Vec<TraceStep> = Vec::new();
        let mut k: usize = 0;
        assert(seq@.take(0) =~= Seq::<Move>::empty());
        while k < seq.len()
            invariant
                ini_state@.wf(),
                k <= seq@.len(),
                s@ == ini_state@.play_all(seq@.take(k as int)),
                trace@.len() == k,
                forall|t: int|
                    0 <= t < k ==> {
                        &&& (#[trigger] trace@[t]).best == seq@[t]
                        &&& trace@[t].moves@ == legal_moves(
                            replay_from(ini_state@.adj, seq@.take(t)),
                            ini_state@.size_terminal,
                        )
                    },
            decreases seq@.len() - k,
        {
            proof {
                lemma_play_all_keeps_wf(ini_state@, seq@.take(k as int));
                assert(seq@.take(k + 1).drop_last() =~= seq@.take(k as int));
                assert(seq@.take(k + 1).last() == seq@[k as int]);
            }
            let moves = s.legal_moves();
            trace.push(TraceStep { moves, best: seq[k] });
            s.play(seq[k]);
            k += 1;
        }
        trace
    }
}

/// A search that has seen nothing and runs for at most `timeout_ms`
/// milliseconds; zero or less for no timeout.
pub fn launch_nrpa(timeout_ms: i64) -> (expe: NRPA)
    ensures
        expe.incumbent().best_score.key == NEG_INFINITY_KEY,
        expe.incumbent().best_state == StateView::initial(),
        expe.timeout_ms() == timeout_ms,
{
    let mut expe = NRPA::new();
    expe.set_timeout(timeout_ms);
    expe
}

/// One level of a nested search.
pub struct NrpaLevel {
    st: State,
    stscore: Score,
    done: usize,
}

/// What a [`NrpaLevel`] stands for.
pub struct NrpaLevelView {
    /// The best state of the level so far.
    pub st: StateView,
    /// The score of that state.
    pub stscore: Score,
    /// The number of repetitions begun.
    pub done: nat,
}

impl View for NrpaLevel {
    type V = NrpaLevelView;

    closed spec fn view(&self) -> NrpaLevelView {
        NrpaLevelView { st: self.st@, stscore: self.stscore, done: self.done as nat }
    }
}

impl NrpaLevelView {
    /// The level after `state` came back from the level below with `score`: a
    /// score strictly above the best makes it the best state of the level.
    pub open spec fn record(self, state: StateView, score: Score) -> NrpaLevelView {
        if self.stscore.key < score.key {
            NrpaLevelView { st: state, stscore: score, ..self }
        } else {
            self
        }
    }
}

impl NrpaLevel {
    /// The best state of the level so far: the sequence that the policy is
    /// adapted to.
    pub fn state(&self) -> (s: &State)
        ensures
            s@ == self@.st,
    {
        &self.st
    }

    /// The score of that state.
    pub fn stscore(&self) -> (s: Score)
        ensures
            s == self@.stscore,
    {
        self.stscore
    }

    /// Begins the next repetition, if one is left.
    pub fn next_iteration(&mut self) -> (b: bool)
        ensures
            b == (old(self)@.done < PLAYOUT),
            final(self)@ == (NrpaLevelView {
                done: if b {
                    old(self)@.done + 1
                } else {
                    old(self)@.done
                },
                ..old(self)@
            }),
    {
        if self.done < PLAYOUT {
            self.done = self.done + 1;
            true
        } else {
            false
        }
    }

    /// Takes the state that came back from the level below, with the score it
    /// was given. A state that improves the level is offered to the whole
    /// search; the verdict says what is to be reported, and `Counterexample`
    /// that the level returns.
    pub fn record(&mut self, expe: &mut NRPA, state: &State, score: Score) -> (v: Verdict)
        ensures
            final(self)@ == old(self)@.record(state@, score),
            final(expe).timeout_ms() == old(expe).timeout_ms(),
            old(self)@.stscore.key < score.key ==> {
                &&& final(expe).incumbent() == old(expe).incumbent().offer(state@, score)
                &&& v == verdict_of(old(expe).incumbent().best_score, score)
            },
            old(self)@.stscore.key >= score.key ==> {
                &&& final(expe).incumbent() == old(expe).incumbent()
                &&& v == Verdict::Unchanged
            },
    {
        if score.exceeds(self.stscore) {
            self.st = state.clone();
            self.stscore = score;
            expe.incumbent.offer(state, score)
        } else {
            Verdict::Unchanged
        }
    }
}

} // verus!
