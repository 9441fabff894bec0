//! The graph under construction: its adjacency matrix, the moves played on
//! it, and what bounds and scores it.

use vstd::prelude::*;
use crate::graph::{
    edge_count, edge_set_to, empty_graph, graph_after, is_simple, is_square,
    lemma_edge_count_bound, lemma_empty_graph, lemma_graph_after, lemma_replay_push,
    lemma_with_edge, lemma_with_new_vertex, lemma_without_edge, replay, replay_from, with_edge,
    with_new_vertex, Graph, Move,
};
use crate::score::{Score, NEG_INFINITY_KEY};

verus! {

/// What a [`State`] stands for.
pub struct StateView {
    /// The adjacency matrix.
    pub adj: Graph,
    /// The number of edges that the state has counted.
    pub n_arete: nat,
    /// The vertex cap.
    pub size_terminal: nat,
    /// The best score that the owner has seen on this lineage.
    pub best_score: Score,
    /// The moves played, oldest first.
    pub seq: Seq<Move>,
    /// The conjecture that scores the graph.
    pub conj: nat,
}

impl StateView {
    /// The state that every construction starts from: a single vertex, no
    /// edge, no move, vertex cap 1 and conjecture 1, and no score seen.
    pub open spec fn initial() -> StateView {
        StateView {
            adj: empty_graph(1),
            n_arete: 0,
            size_terminal: 1,
            best_score: Score { key: NEG_INFINITY_KEY },
            seq: Seq::empty(),
            conj: 1,
        }
    }

    /// The number of vertices.
    pub open spec fn n_sommet(self) -> nat {
        self.adj.len()
    }

    /// The adjacency matrix is that of a simple graph, whose edges are counted.
    pub open spec fn wf(self) -> bool {
        &&& is_simple(self.adj)
        &&& self.n_arete == edge_count(self.adj)
    }

    /// The view after `m` is played: the graph changes as the move says, the
    /// move joins the sequence, and nothing else changes.
    pub open spec fn play(self, m: Move) -> StateView {
        StateView {
            adj: graph_after(self.adj, m),
            n_arete: edge_count(graph_after(self.adj, m)),
            seq: self.seq.push(m),
            ..self
        }
    }

    /// The view after the moves of `moves` are played in order.
    pub open spec fn play_all(self, moves: Seq<Move>) -> StateView
        decreases moves.len(),
    {
        if moves.len() == 0 {
            self
        } else {
            self.play_all(moves.drop_last()).play(moves.last())
        }
    }

    /// The moves played rebuild the adjacency matrix from a single vertex.
    pub open spec fn replayable(self) -> bool {
        self.adj == replay(self.seq)
    }

    /// No move can be played any more: the vertices exceed the cap.
    pub open spec fn terminal(self) -> bool {
        self.n_sommet() > self.size_terminal
    }
}

/// Symmetry, the empty diagonal and the edge count survive every move.
pub proof fn lemma_play_keeps_wf(s: StateView, m: Move)
    requires
        s.wf(),
    ensures
        s.play(m).wf(),
{
    lemma_graph_after(s.adj, m);
}

/// Every state that moves lead to from the initial state is a simple graph
/// with its edges counted, and replaying its moves from a single vertex
/// rebuilds its matrix.
pub proof fn lemma_reachable(moves: Seq<Move>)
    ensures
        StateView::initial().play_all(moves).wf(),
        StateView::initial().play_all(moves).replayable(),
        StateView::initial().play_all(moves).seq == moves,
        StateView::initial().play_all(moves).adj == replay(moves),
{
    lemma_empty_graph(1);
    lemma_play_all_keeps_wf(StateView::initial(), moves);
    lemma_play_all_replayable(StateView::initial(), moves);
    assert(Seq::<Move>::empty() + moves =~= moves);
}

/// Symmetry, the empty diagonal and the edge count hold of every state that
/// moves lead to: after any sequence of plays the matrix is symmetric with an
/// empty diagonal, and the counted edges are the entries above the diagonal.
pub proof fn lemma_play_all_keeps_wf(s: StateView, moves: Seq<Move>)
    requires
        s.wf(),
    ensures
        s.play_all(moves).wf(),
        s.play_all(moves).adj == replay_from(s.adj, moves),
        s.play_all(moves).seq == s.seq + moves,
        s.play_all(moves).size_terminal == s.size_terminal,
        s.play_all(moves).conj == s.conj,
        s.play_all(moves).best_score == s.best_score,
    decreases moves.len(),
{
    if moves.len() > 0 {
        lemma_play_all_keeps_wf(s, moves.drop_last());
        lemma_play_keeps_wf(s.play_all(moves.drop_last()), moves.last());
        assert(s.seq + moves =~= (s.seq + moves.drop_last()).push(moves.last()));
    } else {
        assert(s.seq + moves =~= s.seq);
    }
}

/// Replaying the moves of a state from a single vertex rebuilds its matrix:
/// this holds of the initial state, and every sequence of plays keeps it.
pub proof fn lemma_play_all_replayable(s: StateView, moves: Seq<Move>)
    requires
        s.replayable(),
    ensures
        s.play_all(moves).replayable(),
    decreases moves.len(),
{
    if moves.len() > 0 {
        lemma_play_all_replayable(s, moves.drop_last());
        let t = s.play_all(moves.drop_last());
        lemma_replay_push(empty_graph(1), t.seq, moves.last());
    }
}

/// The rows of a matrix as sequences.
pub open spec fn matrix_view(m: Vec<Vec<bool>>) -> Graph {
    Seq::new(m@.len(), |i: int| m@[i]@)
}

/// A row of `n` unset entries.
fn blank_row(n: usize) -> (row: Vec<bool>)
    ensures
        row@ == Seq::new(n as nat, |j: int| false),
{
    let mut row: Vec<bool> = Vec::new();
    let mut j: usize = 0;
    while j < n
        invariant
            j <= n,
            row@ == Seq::new(j as nat, |k: int| false),
        decreases n - j,
    {
        row.push(false);
        j += 1;
        assert(row@ =~= Seq::new(j as nat, |k: int| false));
    }
    row
}

/// A matrix of `n` rows of `n` unset entries.
fn blank_matrix(n: usize) -> (m: Vec<Vec<bool>>)
    ensures
        matrix_view(m) == empty_graph(n as nat),
{
    let mut m: Vec<Vec<bool>> = Vec::new();
    let mut i: usize = 0;
    while i < n
        invariant
            i <= n,
            m@.len() == i,
            forall|k: int| 0 <= k < i ==> (#[trigger] m@[k])@ == Seq::new(n as nat, |j: int| false),
        decreases n - i,
    {
        let row = blank_row(n);
        m.push(row);
        i += 1;
    }
    assert(matrix_view(m) =~= empty_graph(n as nat));
    m
}

/// A copy of a matrix, row by row.
fn copy_matrix(src: &Vec<Vec<bool>>) -> (m: Vec<Vec<bool>>)
    ensures
        matrix_view(m) == matrix_view(*src),
{
    let mut m: Vec<Vec<bool>> = Vec::new();
    let mut i: usize = 0;
    while i < src.len()
        invariant
            i <= src@.len(),
            m@.len() == i,
            forall|k: int| 0 <= k < i ==> (#[trigger] m@[k])@ == src@[k]@,
        decreases src@.len() - i,
    {
        let mut row: Vec<bool> = Vec::new();
        let mut j: usize = 0;
        while j < src[i].len()
            invariant
                i < src@.len(),
                j <= src@[i as int]@.len(),
                row@ == src@[i as int]@.take(j as int),
            decreases src@[i as int]@.len() - j,
        {
            row.push(src[i][j]);
            j += 1;
            assert(row@ =~= src@[i as int]@.take(j as int));
        }
        assert(row@ =~= src@[i as int]@);
        m.push(row);
        i += 1;
    }
    assert(matrix_view(m) =~= matrix_view(*src));
    m
}

/// A copy of a move sequence.
pub fn copy_moves(src: &Vec<Move>) -> (v: Vec<Move>)
    ensures
        v@ == src@,
{
    let mut v: Vec<Move> = Vec::new();
    let mut i: usize = 0;
    while i < src.len()
        invariant
            i <= src@.len(),
            v@ == src@.take(i as int),
        decreases src@.len() - i,
    {
        v.push(src[i]);
        i += 1;
        assert(v@ =~= src@.take(i as int));
    }
    assert(v@ =~= src@);
    v
}

/// Sets the two entries of an edge.
fn set_pair(m: &mut Vec<Vec<bool>>, a: usize, b: usize, value: bool)
    requires
        is_square(matrix_view(*old(m))),
        a < old(m)@.len(),
        b < old(m)@.len(),
    ensures
        final(m)@.len() == old(m)@.len(),
        forall|i: int, j: int|
            0 <= i < old(m)@.len() && 0 <= j < old(m)@.len() ==> #[trigger] matrix_view(
                *final(m),
            )[i][j] == if (i == a && j == b) || (i == b && j == a) {
                value
            } else {
                matrix_view(*old(m))[i][j]
            },
        is_square(matrix_view(*final(m))),
{
    let ghost g = matrix_view(*m);
    assert(g[a as int].len() == g.len());
    assert(g[b as int].len() == g.len());
    let mut row_a = m[a].clone();
    assert(row_a@ =~= m@[a as int]@);
    row_a.set(b, value);
    m.set(a, row_a);
    let mut row_b = m[b].clone();
    assert(row_b@ =~= m@[b as int]@);
    row_b.set(a, value);
    m.set(b, row_b);
    let ghost h = matrix_view(*m);
    assert forall|i: int| 0 <= i < h.len() implies (#[trigger] h[i]).len() == h.len() by {
        assert(g[i].len() == g.len());
    }
}

/// An adjacency matrix with its edge count.
struct Matrix {
    rows: Vec<Vec<bool>>,
    n_arete: u128,
}

impl Matrix {
    /// The matrix as a graph.
    closed spec fn graph(&self) -> Graph {
        matrix_view(self.rows)
    }

    /// The matrix is that of a simple graph, whose edges are counted.
    closed spec fn ok(&self) -> bool {
        is_simple(self.graph()) && self.n_arete == edge_count(self.graph())
    }

    /// The matrix of the graph on `n` vertices without edges.
    fn empty(n: usize) -> (m: Matrix)
        ensures
            m.ok(),
            m.graph() == empty_graph(n as nat),
            m.n_arete == 0,
    {
        proof {
            lemma_empty_graph(n as nat);
        }
        Matrix { rows: blank_matrix(n), n_arete: 0 }
    }

    /// A copy of the matrix.
    fn copy(&self) -> (m: Matrix)
        ensures
            m.graph() == self.graph(),
            m.n_arete == self.n_arete,
    {
        Matrix { rows: copy_matrix(&self.rows), n_arete: self.n_arete }
    }

    /// Changes the matrix as a move from `from` to `to` does.
    fn add_arete(&mut self, from: usize, to: i64)
        requires
            old(self).ok(),
        ensures
            final(self).ok(),
            final(self).graph() == graph_after(old(self).graph(), Move { ind: 0, from, to }),
    {
        let n = self.rows.len();
        let ghost g = self.graph();
        let ghost m = Move { ind: 0, from, to };
        proof {
            lemma_graph_after(g, m);
            lemma_edge_count_bound(g);
            assert(g.len() * g.len() < u128::MAX) by (nonlinear_arith)
                requires
                    g.len() <= 0xffff_ffff_ffff_ffff,
            ;
        }
        assert(self.n_arete < u128::MAX);
        if from >= n || to < -1 {
            return ;
        }
        if to >= 0 && to as u128 == from as u128 {
            return ;
        }
        if to == -1 || to as u128 >= n as u128 {
            let mut i: usize = 0;
            while i < n
                invariant
                    i <= n,
                    n == g.len(),
                    is_square(g),
                    self.rows@.len() == n,
                    forall|k: int| 0 <= k < i ==> (#[trigger] self.rows@[k])@ == g[k].push(false),
                    forall|k: int| i <= k < n ==> (#[trigger] self.rows@[k])@ == g[k],
                    self.n_arete == old(self).n_arete,
                    self.n_arete < u128::MAX,
                decreases n - i,
            {
                let mut row = self.rows[i].clone();
                assert(row@ =~= self.rows@[i as int]@);
                row.push(false);
                self.rows.set(i, row);
                i += 1;
            }
            let mut last = blank_row(n);
            last.push(false);
            self.rows.push(last);
            proof {
                let h = matrix_view(self.rows);
                assert forall|k: int| 0 <= k < h.len() implies (#[trigger] h[k]).len()
                    == h.len() by {
                    if k < n {
                        assert(g[k].len() == g.len());
                    }
                }
            }
            set_pair(&mut self.rows, from, n, true);
            self.n_arete = self.n_arete + 1;
            proof {
                let h = matrix_view(self.rows);
                let w = with_new_vertex(g, from as int);
                assert forall|i: int| 0 <= i < w.len() implies #[trigger] h[i] =~= w[i] by {
                    assert(h[i].len() == h.len());
                    assert forall|j: int| 0 <= j < w.len() implies h[i][j] == w[i][j] by {
                        if i < n {
                            assert(g[i].len() == g.len());
                        }
                    }
                }
                assert(h =~= w);
                lemma_with_new_vertex(g, from as int);
            }
        } else {
            let t = to as usize;
            assert(g[from as int].len() == g.len());
            if !self.rows[from][t] {
                set_pair(&mut self.rows, from, t, true);
                self.n_arete = self.n_arete + 1;
            }
            proof {
                let h = matrix_view(self.rows);
                let w = with_edge(g, from as int, t as int);
                lemma_with_edge(g, from as int, t as int);
                assert forall|i: int| 0 <= i < w.len() implies #[trigger] h[i] =~= w[i] by {
                    assert(g[i].len() == g.len());
                    assert(h[i].len() == h.len());
                }
                assert(h =~= w);
            }
        }
    }

    /// Joins two distinct vertices, or parts them.
    fn set_edge(&mut self, a: usize, b: usize, value: bool)
        requires
            old(self).ok(),
            a < old(self).graph().len(),
            b < old(self).graph().len(),
            a != b,
        ensures
            final(self).ok(),
            final(self).graph() == edge_set_to(old(self).graph(), a as int, b as int, value),
    {
        let ghost g = self.graph();
        let n = self.rows.len();
        proof {
            assert(g.len() == n);
            lemma_edge_count_bound(g);
            lemma_with_edge(g, a as int, b as int);
            lemma_without_edge(g, a as int, b as int);
            assert(g.len() * g.len() < u128::MAX) by (nonlinear_arith)
                requires
                    g.len() <= 0xffff_ffff_ffff_ffff,
            ;
            assert(g[a as int].len() == g.len());
        }
        if self.rows[a][b] != value {
            set_pair(&mut self.rows, a, b, value);
            if value {
                self.n_arete = self.n_arete + 1;
            } else {
                self.n_arete = self.n_arete - 1;
            }
        }
        proof {
            let h = matrix_view(self.rows);
            let w = edge_set_to(g, a as int, b as int, value);
            assert forall|i: int| 0 <= i < w.len() implies #[trigger] h[i] =~= w[i] by {
                assert(g[i].len() == g.len());
                assert(h[i].len() == h.len());
            }
            assert(h =~= w);
        }
    }
}

/// An undirected simple graph under construction.
///
/// Every state is a simple graph whose edges are counted: the adjacency matrix
/// is symmetric with an empty diagonal, and `n_arete` is the number of entries
/// set above the diagonal.
pub struct State {
    matrix: Matrix,
    size_terminal: usize,
    best_score: Score,
    seq: Vec<Move>,
    conj: usize,
}

impl View for State {
    type V = StateView;

    closed spec fn view(&self) -> StateView {
        StateView {
            adj: self.matrix.graph(),
            n_arete: self.matrix.n_arete as nat,
            size_terminal: self.size_terminal as nat,
            best_score: self.best_score,
            seq: self.seq@,
            conj: self.conj as nat,
        }
    }
}

impl State {
    /// What holds of every state: it is a simple graph with its edges counted.
    #[verifier::type_invariant]
    pub closed spec fn wf(&self) -> bool {
        self.matrix.ok()
    }

    /// Every state is a simple graph with its edges counted.
    pub proof fn lemma_wf(&self)
        requires
            self.wf(),
        ensures
            self@.wf(),
    {
    }

    /// A single vertex, no edge, no move, vertex cap 1 and conjecture 1; no score
    /// seen yet.
    pub fn new() -> (s: State)
        ensures
            s@ == StateView::initial(),
            s@.wf(),
            s@.replayable(),
    {
        State {
            matrix: Matrix::empty(1),
            size_terminal: 1,
            best_score: Score::neg_infinity(),
            seq: Vec::new(),
            conj: 1,
        }
    }

    /// The graph on `n` vertices without edges, with vertex cap `size_terminal`
    /// and conjecture `conj`; no move played and no score seen.
    pub fn empty(n: usize, size_terminal: usize, conj: usize) -> (s: State)
        ensures
            s@.wf(),
            s@.adj == empty_graph(n as nat),
            s@.n_arete == 0,
            s@.size_terminal == size_terminal,
            s@.conj == conj,
            s@.seq == Seq::<Move>::empty(),
            s@.best_score.key == NEG_INFINITY_KEY,
    {
        State {
            matrix: Matrix::empty(n),
            size_terminal,
            best_score: Score::neg_infinity(),
            seq: Vec::new(),
            conj,
        }
    }

    /// The number of vertices.
    pub fn n_sommet(&self) -> (n: usize)
        ensures
            n == self@.n_sommet(),
            self@.wf(),
    {
        proof {
            use_type_invariant(self);
        }
        self.matrix.rows.len()
    }

    /// The number of edges.
    pub fn n_arete(&self) -> (n: u128)
        ensures
            n == self@.n_arete,
            n == edge_count(self@.adj),
    {
        proof {
            use_type_invariant(self);
        }
        self.matrix.n_arete
    }

    /// The vertex cap.
    pub fn size_terminal(&self) -> (n: usize)
        ensures
            n == self@.size_terminal,
    {
        self.size_terminal
    }

    /// The conjecture that scores the graph.
    pub fn conj(&self) -> (c: usize)
        ensures
            c == self@.conj,
    {
        self.conj
    }

    /// The best score seen on this lineage.
    pub fn best_score(&self) -> (s: Score)
        ensures
            s == self@.best_score,
    {
        self.best_score
    }

    /// The moves played, oldest first.
    pub fn seq(&self) -> (moves: &Vec<Move>)
        ensures
            moves@ == self@.seq,
    {
        &self.seq
    }

    /// Are `i` and `j` vertices that an edge joins? The answer is the same for
    /// `j` and `i`, and no vertex is joined to itself.
    pub fn has_edge(&self, i: usize, j: usize) -> (b: bool)
        ensures
            b == (i < self@.n_sommet() && j < self@.n_sommet() && self@.adj[i as int][j as int]),
            b == (i < self@.n_sommet() && j < self@.n_sommet() && self@.adj[j as int][i as int]),
            i == j ==> !b,
    {
        proof {
            use_type_invariant(self);
        }
        let n = self.matrix.rows.len();
        if i >= n || j >= n {
            return false;
        }
        assert(self@.adj[i as int].len() == self@.adj.len());
        self.matrix.rows[i][j]
    }

    /// The adjacency matrix, row by row: symmetric, with an empty diagonal.
    pub fn adjacency(&self) -> (m: Vec<Vec<bool>>)
        ensures
            matrix_view(m) == self@.adj,
            is_simple(matrix_view(m)),
    {
        proof {
            use_type_invariant(self);
        }
        copy_matrix(&self.matrix.rows)
    }

    /// Sets the vertex cap.
    pub fn set_size_terminal(&mut self, size_terminal: usize)
        ensures
            final(self)@ == (StateView { size_terminal: size_terminal as nat, ..old(self)@ }),
    {
        proof {
            use_type_invariant(&*self);
        }
        self.size_terminal = size_terminal;
    }

    /// Sets the conjecture.
    pub fn set_conj(&mut self, conj: usize)
        ensures
            final(self)@ == (StateView { conj: conj as nat, ..old(self)@ }),
    {
        proof {
            use_type_invariant(&*self);
        }
        self.conj = conj;
    }

    /// Records the best score seen on this lineage.
    pub fn set_best_score(&mut self, score: Score)
        ensures
            final(self)@ == (StateView { best_score: score, ..old(self)@ }),
    {
        proof {
            use_type_invariant(&*self);
        }
        self.best_score = score;
    }

    /// Joins `from` to `to` as [`graph_after`] says, without recording a move.
    pub fn add_arete(&mut self, from: usize, to: i64)
        ensures
            final(self)@ == (StateView {
                adj: graph_after(old(self)@.adj, Move { ind: 0, from, to }),
                n_arete: edge_count(graph_after(old(self)@.adj, Move { ind: 0, from, to })),
                ..old(self)@
            }),
    {
        proof {
            use_type_invariant(&*self);
        }
        let mut matrix = Matrix::empty(0);
        std::mem::swap(&mut matrix, &mut self.matrix);
        matrix.add_arete(from, to);
        self.matrix = matrix;
    }

    /// Joins two distinct vertices, or parts them, without recording a move.
    /// Where `a` and `b` are not two distinct vertices nothing changes.
    pub fn set_edge(&mut self, a: usize, b: usize, value: bool)
        ensures
            final(self)@ == if a != b && a < old(self)@.n_sommet() && b < old(self)@.n_sommet() {
                StateView {
                    adj: edge_set_to(old(self)@.adj, a as int, b as int, value),
                    n_arete: edge_count(edge_set_to(old(self)@.adj, a as int, b as int, value)),
                    ..old(self)@
                }
            } else {
                old(self)@
            },
    {
        proof {
            use_type_invariant(&*self);
        }
        let n = self.matrix.rows.len();
        if a == b || a >= n || b >= n {
            return ;
        }
        let mut matrix = Matrix::empty(0);
        std::mem::swap(&mut matrix, &mut self.matrix);
        matrix.set_edge(a, b, value);
        self.matrix = matrix;
    }

    /// Plays `m`: changes the graph as [`graph_after`] says, and appends `m` to
    /// the moves played, whether or not the graph changed.
    pub fn play(&mut self, m: Move)
        ensures
            final(self)@ == old(self)@.play(m),
            old(self)@.replayable() ==> final(self)@.replayable(),
    {
        let ghost before = self@;
        self.add_arete(m.from, m.to);
        proof {
            use_type_invariant(&*self);
        }
        let mut seq: Vec<Move> = Vec::new();
        std::mem::swap(&mut seq, &mut self.seq);
        seq.push(m);
        self.seq = seq;
        proof {
            assert(graph_after(before.adj, Move { ind: 0, from: m.from, to: m.to }) == graph_after(
                before.adj,
                m,
            ));
            lemma_replay_push(empty_graph(1), before.seq, m);
        }
    }

    /// Do the vertices exceed the cap?
    pub fn terminal(&self) -> (b: bool)
        ensures
            b == self@.terminal(),
            b <==> self@.n_sommet() > self@.size_terminal,
    {
        self.matrix.rows.len() > self.size_terminal
    }
}

impl Clone for State {
    /// A copy that stands for the same state.
    fn clone(&self) -> (s: State)
        ensures
            s@ == self@,
    {
        proof {
            use_type_invariant(self);
        }
        State {
            matrix: self.matrix.copy(),
            size_terminal: self.size_terminal,
            best_score: self.best_score,
            seq: copy_moves(&self.seq),
            conj: self.conj,
        }
    }
}

} // verus!
