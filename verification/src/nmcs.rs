//! Nested Monte Carlo search: at each level every open move is tried, the
//! best result is kept, and the first move towards it is committed.

use vstd::prelude::*;
use crate::graph::{legal_moves, Move};
use crate::harness::{timed_out, verdict_of, Incumbent, IncumbentView, Verdict};
use crate::score::{Score, COUNTEREXAMPLE_KEY, NEG_INFINITY_KEY};
use crate::playout::{Playout, PlayoutView};
use crate::state::{State, StateView};

verus! {

/// What a nested search has found, over all its levels.
pub struct NMCS {
    incumbent: Incumbent,
    timeout_ms: i64,
}

impl NMCS {
    /// The best state over all levels, with its score.
    pub closed spec fn incumbent(&self) -> IncumbentView {
        self.incumbent@
    }

    /// The timeout in milliseconds; zero or less for none.
    pub closed spec fn timeout_ms(&self) -> i64 {
        self.timeout_ms
    }

    /// A search that has seen nothing: any score beats its best, it holds the
    /// single-vertex state, and it has no timeout.
    pub fn new() -> (expe: NMCS)
        ensures
            expe.incumbent().best_score.key == NEG_INFINITY_KEY,
            expe.incumbent().best_state == StateView::initial(),
            expe.timeout_ms() == -1,
    {
        NMCS { incumbent: Incumbent::new(State::new()), timeout_ms: -1 }
    }

    /// Sets the timeout, in milliseconds.
    pub fn set_timeout(&mut self, timeout_ms: i64)
        ensures
            final(self).timeout_ms() == timeout_ms,
            final(self).incumbent() == old(self).incumbent(),
    {
        self.timeout_ms = timeout_ms;
    }

    /// The timeout, in milliseconds.
    pub fn timeout(&self) -> (t: i64)
        ensures
            t == self.timeout_ms(),
    {
        self.timeout_ms
    }

    /// The best score over all levels.
    pub fn best_yet(&self) -> (s: Score)
        ensures
            s == self.incumbent().best_score,
    {
        self.incumbent.best_score()
    }

    /// The best state over all levels.
    pub fn best_state(&self) -> (s: &State)
        ensures
            s@ == self.incumbent().best_state,
    {
        self.incumbent.best_state()
    }

    /// Begins a rollout from `st`, whose score is `score`.
    pub fn playout(&self, st: State, score: Score) -> (p: Playout)
        ensures
            p@ == (PlayoutView { st: st@, best_state: st@, best_score: score, stopped: false }),
    {
        Playout::open(st, score)
    }

    /// Opens a level of the search at `st`, whose score is `score`.
    pub fn nmcs(&self, st: State, score: Score) -> (level: NmcsLevel)
        ensures
            level@ == NmcsLevelView::open(st@, score),
    {
        let best_state = st.clone();
        let moves = if st.terminal() {
            Vec::new()
        } else {
            st.legal_moves()
        };
        NmcsLevel { st, best_state, best_score: score, moves, next: 0, tried: false }
    }
}

/// One level of a nested search.
pub struct NmcsLevel {
    st: State,
    best_state: State,
    best_score: Score,
    moves: Vec<Move>,
    next: usize,
    tried: bool,
}

/// What a [`NmcsLevel`] stands for.
pub struct NmcsLevelView {
    /// The state that the level has committed to.
    pub st: StateView,
    /// The best result of the level so far.
    pub best_state: StateView,
    /// The score of that result.
    pub best_score: Score,
    /// The moves of the pass under way.
    pub moves: Seq<Move>,
    /// How many of them were tried.
    pub next: nat,
    /// The level has handed out a child.
    pub tried: bool,
}

/// What a result did to a level and to the search.
pub struct LevelOutcome {
    /// What is to be reported: the verdict on the result against the best state
    /// of the whole search, or `Unchanged` where the result did not improve the
    /// level.
    pub report: Verdict,
    /// The result improved the level and refutes the conjecture: the level
    /// returns.
    pub stop: bool,
}

impl View for NmcsLevel {
    type V = NmcsLevelView;

    closed spec fn view(&self) -> NmcsLevelView {
        NmcsLevelView {
            st: self.st@,
            best_state: self.best_state@,
            best_score: self.best_score,
            moves: self.moves@,
            next: self.next as nat,
            tried: self.tried,
        }
    }
}

/// The moves that a pass tries on `st`: none on a terminal state.
pub open spec fn pass_moves(st: StateView) -> Seq<Move> {
    if st.terminal() {
        Seq::empty()
    } else {
        legal_moves(st.adj, st.size_terminal)
    }
}

impl NmcsLevelView {
    /// A level at `st`, whose score is `score`: `st` is the best result so far
    /// and the first pass tries the moves open on it.
    pub open spec fn open(st: StateView, score: Score) -> NmcsLevelView {
        NmcsLevelView {
            st,
            best_state: st,
            best_score: score,
            moves: pass_moves(st),
            next: 0,
            tried: false,
        }
    }

    /// Can the level commit a move? It can where a pass has tried moves and
    /// the best result has played more moves than the committed state.
    pub open spec fn can_commit(self) -> bool {
        self.moves.len() > 0 && self.best_state.seq.len() > self.st.seq.len()
    }

    /// The state after the commit: the committed state with the move that the
    /// best result played next.
    pub open spec fn committed(self) -> StateView {
        self.st.play(self.best_state.seq[self.st.seq.len() as int])
    }

    /// The level after it handed out its next child.
    ///
    /// Within a pass that is the next move tried. After a pass the level
    /// commits, and the first move of the next pass is tried; a level that
    /// cannot commit, or whose committed state has no pass to offer, stays
    /// without moves.
    pub open spec fn after_next(self) -> NmcsLevelView {
        if self.next < self.moves.len() {
            NmcsLevelView { next: self.next + 1, tried: true, ..self }
        } else if !self.can_commit() {
            NmcsLevelView { moves: Seq::empty(), next: 0, ..self }
        } else if pass_moves(self.committed()).len() == 0 {
            NmcsLevelView { st: self.committed(), moves: Seq::empty(), next: 0, ..self }
        } else {
            NmcsLevelView {
                st: self.committed(),
                moves: pass_moves(self.committed()),
                next: 1,
                tried: true,
                ..self
            }
        }
    }

    /// The child that the level hands out next, if any: the committed state
    /// with the move under trial played.
    pub open spec fn next_child(self) -> Option<StateView> {
        if self.next < self.moves.len() {
            Some(self.st.play(self.moves[self.next as int]))
        } else if !self.can_commit() || pass_moves(self.committed()).len() == 0 {
            None
        } else {
            Some(self.committed().play(pass_moves(self.committed())[0]))
        }
    }

    /// The level after `state` came back from a child with `score`: a score
    /// strictly above the best makes it the best result, stamped with the
    /// score.
    pub open spec fn record(self, state: StateView, score: Score) -> NmcsLevelView {
        if score.key > self.best_score.key {
            NmcsLevelView {
                best_state: StateView { best_score: score, ..state },
                best_score: score,
                ..self
            }
        } else {
            self
        }
    }
}

impl NmcsLevel {
    /// The state that the level has committed to.
    pub fn state(&self) -> (s: &State)
        ensures
            s@ == self@.st,
    {
        &self.st
    }

    /// The score of the best result so far.
    pub fn best_score(&self) -> (s: Score)
        ensures
            s == self@.best_score,
    {
        self.best_score
    }

    /// The next child to search, or `None` where the level is done.
    pub fn next_child(&mut self) -> (child: Option<State>)
        ensures
            final(self)@ == old(self)@.after_next(),
            child.is_some() == old(self)@.next_child().is_some(),
            child.is_some() ==> child.unwrap()@ == old(self)@.next_child().unwrap(),
    {
        if self.next < self.moves.len() {
            let mut child = self.st.clone();
            child.play(self.moves[self.next]);
            self.next = self.next + 1;
            self.tried = true;
            return Some(child);
        }
        let k = self.st.seq().len();
        if self.moves.len() == 0 || self.best_state.seq().len() <= k {
            self.moves = Vec::new();
            self.next = 0;
            return None;
        }
        let m = self.best_state.seq()[k];
        self.st.play(m);
        if self.st.terminal() {
            self.moves = Vec::new();
            self.next = 0;
            return None;
        }
        let moves = self.st.legal_moves();
        if moves.len() == 0 {
            assert(moves@ =~= Seq::<Move>::empty());
            self.moves = moves;
            self.next = 0;
            return None;
        }
        let mut child = self.st.clone();
        child.play(moves[0]);
        self.moves = moves;
        self.next = 1;
        self.tried = true;
        Some(child)
    }

    /// Takes the result of a child with the score it was given. A result that
    /// improves the level is offered to the whole search.
    pub fn record(&mut self, expe: &mut NMCS, state: &State, score: Score) -> (out: LevelOutcome)
        ensures
            final(self)@ == old(self)@.record(state@, score),
            final(expe).timeout_ms() == old(expe).timeout_ms(),
            score.key > old(self)@.best_score.key ==> {
                &&& final(expe).incumbent() == old(expe).incumbent().offer(state@, score)
                &&& out.report == verdict_of(old(expe).incumbent().best_score, score)
                &&& out.stop == (score.key > COUNTEREXAMPLE_KEY)
            },
            score.key <= old(self)@.best_score.key ==> {
                &&& final(expe).incumbent() == old(expe).incumbent()
                &&& out.report == Verdict::Unchanged
                &&& !out.stop
            },
    {
        if score.exceeds(self.best_score) {
            let mut held = state.clone();
            held.set_best_score(score);
            self.best_state = held;
            self.best_score = score;
            let report = expe.incumbent.offer(state, score);
            LevelOutcome { report, stop: score.is_counterexample() }
        } else {
            LevelOutcome { report: Verdict::Unchanged, stop: false }
        }
    }

    /// What the level returns when the time is up: its own best result.
    pub fn into_best(self) -> (s: State)
        ensures
            s@ == self@.best_state,
    {
        self.best_state
    }

    /// What a level `n` of the search `expe` does next, `elapsed_ms`
    /// milliseconds into the run.
    ///
    /// A level that never had a child, opened at a terminal state or at one
    /// without a move, returns that state. A level without a child left returns
    /// the best state of the whole search. A level with a child, once the time
    /// is up, returns its own best result. Otherwise the child is rolled out at
    /// level one or below, and searched one level down above that.
    pub fn next(&mut self, expe: &NMCS, n: i8, elapsed_ms: u64) -> (task: Task)
        ensures
            final(self)@ == old(self)@.after_next(),
            match old(self)@.next_child() {
                None => task matches Task::Return(s) && s@ == if old(self)@.tried {
                    expe.incumbent().best_state
                } else {
                    final(self)@.st
                },
                Some(child) => if expe.timeout_ms() > 0 && elapsed_ms > expe.timeout_ms() {
                    task matches Task::Return(s) && s@ == old(self)@.best_state
                } else if n <= 1 {
                    task matches Task::Rollout(c) && c@ == child
                } else {
                    task matches Task::Nested(c, m) && c@ == child && m == n - 1
                },
            },
    {
        let tried = self.tried;
        match self.next_child() {
            None => if tried {
                Task::Return(expe.incumbent.best_state().clone())
            } else {
                Task::Return(self.st.clone())
            },
            Some(child) => {
                if timed_out(elapsed_ms, expe.timeout_ms) {
                    Task::Return(self.best_state.clone())
                } else if n <= 1 {
                    Task::Rollout(child)
                } else {
                    Task::Nested(child, n - 1)
                }
            },
        }
    }
}

/// A search that has seen nothing and runs for at most `timeout_ms`
/// milliseconds; zero or less for no timeout.
pub fn launch_nmcs(timeout_ms: i64) -> (expe: NMCS)
    ensures
        expe.incumbent().best_score.key == NEG_INFINITY_KEY,
        expe.incumbent().best_state == StateView::initial(),
        expe.timeout_ms() == timeout_ms,
{
    let mut expe = NMCS::new();
    expe.set_timeout(timeout_ms);
    expe
}

/// What a level does next.
pub enum Task {
    /// Roll this child out, and record what the rollout returns.
    Rollout(State),
    /// Search this child at this level, and record what the search returns.
    Nested(State, i8),
    /// Return this state.
    Return(State),
}

} // verus!
