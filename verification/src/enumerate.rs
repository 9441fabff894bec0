//! Enumerations over a state: its edges, its free pairs and the moves open
//! on it, each in the one order that every strategy relies on.

use vstd::prelude::*;
use crate::graph::{
    all_pairs, edge_moves, edges, is_legal, keeps, legal_moves, lemma_edges_count,
    lemma_legal_moves, lemma_legal_moves_distinct, non_edges, pairs_below, pairs_such, row_pairs,
    vertex_moves, Move,
};
use crate::state::State;

verus! {

/// All unordered pairs of vertices below `n`, in lexicographic order.
pub fn list_all_pairs(n: usize) -> (out: Vec<(usize, usize)>)
    ensures
        out@ == all_pairs(n as nat),
{
    let ghost keep = keeps(Seq::empty(), None);
    let mut out: Vec<(usize, usize)> = Vec::new();
    let mut i: usize = 0;
    while i < n
        invariant
            keep == keeps(Seq::empty(), None),
            i <= n,
            out@ == pairs_below(i as int, n as int, keep),
        decreases n - i,
    {
        let mut j: usize = i + 1;
        assert(out@ =~= pairs_below(i as int, n as int, keep) + row_pairs(
            i as int,
            j as int,
            keep,
        ));
        while j < n
            invariant
                keep == keeps(Seq::empty(), None),
                i < n,
                i + 1 <= j <= n,
                out@ == pairs_below(i as int, n as int, keep) + row_pairs(i as int, j as int, keep),
            decreases n - j,
        {
            out.push((i, j));
            assert(keep(i as int, j as int));
            j += 1;
            assert(out@ =~= pairs_below(i as int, n as int, keep) + row_pairs(
                i as int,
                j as int,
                keep,
            ));
        }
        i += 1;
    }
    out
}

impl State {
    /// The unordered pairs of vertices, in lexicographic order: all of them, or
    /// those that an edge joins (`Some(true)`), or those that none joins
    /// (`Some(false)`).
    pub fn pairs(&self, want: Option<bool>) -> (out: Vec<(usize, usize)>)
        ensures
            out@ == pairs_such(self@.n_sommet(), keeps(self@.adj, want)),
    {
        let n = self.n_sommet();
        let ghost keep = keeps(self@.adj, want);
        let mut out: Vec<(usize, usize)> = Vec::new();
        let mut i: usize = 0;
        while i < n
            invariant
                n == self@.n_sommet(),
                keep == keeps(self@.adj, want),
                i <= n,
                out@ == pairs_below(i as int, n as int, keep),
            decreases n - i,
        {
            let mut j: usize = i + 1;
            assert(out@ =~= pairs_below(i as int, n as int, keep) + row_pairs(
                i as int,
                j as int,
                keep,
            ));
            while j < n
                invariant
                    n == self@.n_sommet(),
                    keep == keeps(self@.adj, want),
                    i < n,
                    i + 1 <= j <= n,
                    out@ == pairs_below(i as int, n as int, keep) + row_pairs(
                        i as int,
                        j as int,
                        keep,
                    ),
                decreases n - j,
            {
                let kept = match want {
                    None => true,
                    Some(v) => self.has_edge(i, j) == v,
                };
                assert(kept == keep(i as int, j as int));
                if kept {
                    out.push((i, j));
                }
                j += 1;
                assert(out@ =~= pairs_below(i as int, n as int, keep) + row_pairs(
                    i as int,
                    j as int,
                    keep,
                ));
            }
            i += 1;
        }
        out
    }

    /// The edges, each once with its smaller vertex first, in lexicographic
    /// order: as many pairs as the state counts edges.
    pub fn edges(&self) -> (out: Vec<(usize, usize)>)
        ensures
            out@ == edges(self@.adj),
            out@.len() == self@.n_arete,
            out@.no_duplicates(),
    {
        let n = self.n_sommet();
        proof {
            lemma_edges_count(self@.adj);
        }
        self.pairs(Some(true))
    }

    /// The pairs of distinct vertices that no edge joins, in lexicographic
    /// order.
    pub fn non_edges(&self) -> (out: Vec<(usize, usize)>)
        ensures
            out@ == non_edges(self@.adj),
    {
        self.pairs(Some(false))
    }

    /// The moves open on the state: below the vertex cap one new vertex for
    /// each source, by ascending source; then one move for each pair that no
    /// edge joins, in lexicographic order. On a state whose vertices a move can
    /// name, these are the legal moves, each once.
    pub fn legal_moves(&self) -> (moves: Vec<Move>)
        ensures
            moves@ == legal_moves(self@.adj, self@.size_terminal),
            self@.n_sommet() <= i64::MAX ==> {
                &&& moves@.no_duplicates()
                &&& forall|k: int|
                    0 <= k < moves@.len() ==> is_legal(
                        self@.adj,
                        self@.size_terminal,
                        #[trigger] moves@[k],
                    )
                &&& forall|m: Move|
                    is_legal(self@.adj, self@.size_terminal, m) ==> moves@.contains(m)
            },
    {
        let n = self.n_sommet();
        proof {
            if n <= i64::MAX {
                lemma_legal_moves(self@.adj, self@.size_terminal);
                lemma_legal_moves_distinct(self@.adj, self@.size_terminal);
            }
        }
        let mut moves: Vec<Move> = Vec::new();
        if n < self.size_terminal() {
            let mut i: usize = 0;
            while i < n
                invariant
                    n == self@.n_sommet(),
                    i <= n,
                    moves@ == vertex_moves(n as nat).take(i as int),
                decreases n - i,
            {
                moves.push(Move { ind: n, from: i, to: -1 });
                i += 1;
                assert(moves@ =~= vertex_moves(n as nat).take(i as int));
            }
            assert(moves@ =~= vertex_moves(n as nat));
        }
        let free = self.non_edges();
        let ghost head = moves@;
        let ghost tail = edge_moves(self@.adj);
        let mut k: usize = 0;
        while k < free.len()
            invariant
                n == self@.n_sommet(),
                free@ == non_edges(self@.adj),
                tail == edge_moves(self@.adj),
                k <= free@.len(),
                moves@ == head + tail.take(k as int),
            decreases free@.len() - k,
        {
            let p = free[k];
            moves.push(Move { ind: n, from: p.0, to: #[verifier::truncate] (p.1 as i64) });
            k += 1;
            assert(moves@ =~= head + tail.take(k as int));
        }
        assert(moves@ =~= head + tail);
        moves
    }

    /// Is `m` one of the moves open on the state?
    pub fn is_legal_move(&self, m: Move) -> (b: bool)
        ensures
            b == is_legal(self@.adj, self@.size_terminal, m),
    {
        let n = self.n_sommet();
        if m.ind != n || m.from >= n {
            return false;
        }
        if m.to == -1 {
            return n < self.size_terminal();
        }
        if m.to < 0 || m.to as u128 >= n as u128 || m.to as u128 <= m.from as u128 {
            return false;
        }
        !self.has_edge(m.from, m.to as usize)
    }
}

} // verus!
