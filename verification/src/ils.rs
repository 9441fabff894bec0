//! Iterated local search on graphs of a fixed order: random starting graphs,
//! a local search that adds one edge at a time, and a perturbation that
//! exchanges two pairs.

use vstd::prelude::*;
use crate::builders::{
    complete_graph, from_edges, is_edge_of, lemma_all_pairs_complete, with_edges,
};
use crate::chance::{gen_bit, shuffled_pairs};
use crate::enumerate::list_all_pairs;
use crate::graph::{
    all_pairs, edge_count, edge_set_to, empty_graph, is_simple, lemma_empty_graph,
    lemma_with_edge, with_edge, Graph, Move,
};
use crate::harness::{verdict_of, Incumbent, IncumbentView, Verdict};
use crate::score::{Score, COUNTEREXAMPLE_KEY};
use crate::state::{State, StateView};

verus! {

/// The pairs of `pairs` whose flag in `bits` is set; a pair without a flag is
/// left out.
pub open spec fn chosen(pairs: Seq<(usize, usize)>, bits: Seq<bool>) -> Seq<(usize, usize)>
    decreases pairs.len(),
{
    if pairs.len() == 0 {
        Seq::empty()
    } else {
        let rest = chosen(pairs.drop_last(), bits);
        if pairs.len() <= bits.len() && bits[pairs.len() - 1] {
            rest.push(pairs.last())
        } else {
            rest
        }
    }
}

/// The complete graph on `n` vertices, to be scored by conjecture `fct`.
pub fn create_complete_graph(n: usize, fct: usize) -> (s: State)
    ensures
        s@.adj == complete_graph(n as nat),
        s@.conj == fct,
        s@.size_terminal == 1,
        s@.seq == Seq::<Move>::empty(),
{
    let pairs = list_all_pairs(n);
    proof {
        lemma_all_pairs_complete(n as nat);
    }
    from_edges(n, 1, fct, &pairs)
}

/// The graph on `n` vertices that holds the `k`-th unordered pair, counted in
/// lexicographic order, exactly where `bits[k]` is set; to be scored by
/// conjecture `fct`.
pub fn graph_from_bits(n: usize, fct: usize, bits: &Vec<bool>) -> (s: State)
    ensures
        s@.adj == with_edges(empty_graph(n as nat), chosen(all_pairs(n as nat), bits@)),
        s@.n_sommet() == n,
        s@.conj == fct,
        s@.size_terminal == 1,
        s@.seq == Seq::<Move>::empty(),
{
    let pairs = list_all_pairs(n);
    let mut kept: Vec<(usize, usize)> = Vec::new();
    let mut k: usize = 0;
    assert(pairs@.take(0) =~= Seq::<(usize, usize)>::empty());
    while k < pairs.len()
        invariant
            k <= pairs@.len(),
            kept@ == chosen(pairs@.take(k as int), bits@),
        decreases pairs@.len() - k,
    {
        proof {
            assert(pairs@.take(k + 1).drop_last() =~= pairs@.take(k as int));
            assert(pairs@.take(k + 1).last() == pairs@[k as int]);
        }
        if k < bits.len() && bits[k] {
            kept.push(pairs[k]);
        }
        k += 1;
    }
    assert(pairs@.take(k as int) =~= pairs@);
    from_edges(n, 1, fct, &kept)
}

/// A graph on `n` vertices in which each pair is joined on the toss of a fair
/// coin; to be scored by conjecture `fct`.
pub fn create_random_graph(n: usize, fct: usize) -> (s: State)
    ensures
        s@.n_sommet() == n,
        s@.conj == fct,
        s@.size_terminal == 1,
        s@.seq == Seq::<Move>::empty(),
        exists|bits: Seq<bool>|
            s@.adj == with_edges(
                empty_graph(n as nat),
                #[trigger] chosen(all_pairs(n as nat), bits),
            ),
{
    let count = list_all_pairs(n).len();
    let mut bits: Vec<bool> = Vec::new();
    let mut k: usize = 0;
    while k < count
        invariant
            k <= count,
        decreases count - k,
    {
        bits.push(gen_bit());
        k += 1;
    }
    graph_from_bits(n, fct, &bits)
}

/// The graph and the degree counts after the first `k` pairs of `order` were
/// offered: a pair is joined, and counted at both ends, where neither end
/// counts more than `d`.
pub open spec fn degree_fill(n: nat, d: nat, order: Seq<(usize, usize)>, k: int) -> (
    Graph,
    Seq<nat>,
)
    decreases k,
{
    if k <= 0 {
        (empty_graph(n), Seq::new(n, |i: int| 0nat))
    } else {
        let (g, deg) = degree_fill(n, d, order, k - 1);
        let p = order[k - 1];
        if is_edge_of(p, n) && deg[p.0 as int] <= d && deg[p.1 as int] <= d {
            (
                with_edge(g, p.0 as int, p.1 as int),
                deg.update(p.0 as int, deg[p.0 as int] + 1).update(
                    p.1 as int,
                    deg[p.1 as int] + 1,
                ),
            )
        } else {
            (g, deg)
        }
    }
}

/// What a fill maintains: a simple graph on `n` vertices, and counts that no
/// pair offered can have raised above the number of pairs offered.
pub proof fn lemma_degree_fill(n: nat, d: nat, order: Seq<(usize, usize)>, k: int)
    requires
        0 <= k <= order.len(),
    ensures
        is_simple(degree_fill(n, d, order, k).0),
        degree_fill(n, d, order, k).0.len() == n,
        degree_fill(n, d, order, k).1.len() == n,
        forall|v: int| 0 <= v < n ==> (#[trigger] degree_fill(n, d, order, k).1[v]) <= k,
    decreases k,
{
    if k <= 0 {
        lemma_empty_graph(n);
    } else {
        lemma_degree_fill(n, d, order, k - 1);
        let (g, deg) = degree_fill(n, d, order, k - 1);
        let p = order[k - 1];
        if is_edge_of(p, n) && deg[p.0 as int] <= d && deg[p.1 as int] <= d {
            lemma_with_edge(g, p.0 as int, p.1 as int);
        }
    }
}

/// The graph on `n` vertices that takes the pairs of `order` in turn, joining
/// a pair where neither end has been joined more than `d` times; to be scored
/// by conjecture `fct`.
pub fn fill_by_degree(n: usize, d: usize, fct: usize, order: &Vec<(usize, usize)>) -> (s: State)
    ensures
        s@.adj == degree_fill(n as nat, d as nat, order@, order@.len() as int).0,
        s@.n_sommet() == n,
        s@.conj == fct,
        s@.size_terminal == 1,
        s@.seq == Seq::<Move>::empty(),
{
    let mut s = State::empty(n, 1, fct);
    let mut degrees: Vec<usize> = Vec::new();
    let mut i: usize = 0;
    while i < n
        invariant
            i <= n,
            degrees@.len() == i,
            forall|v: int| 0 <= v < i ==> degrees@[v] == 0,
        decreases n - i,
    {
        degrees.push(0);
        i += 1;
    }
    let mut k: usize = 0;
    proof {
        lemma_empty_graph(n as nat);
        assert(degree_fill(n as nat, d as nat, order@, 0).1 =~= Seq::new(
            n as nat,
            |i: int| degrees@[i] as nat,
        ));
    }
    while k < order.len()
        invariant
            k <= order@.len(),
            degrees@.len() == n,
            s@.adj == degree_fill(n as nat, d as nat, order@, k as int).0,
            degree_fill(n as nat, d as nat, order@, k as int).1 == Seq::new(
                n as nat,
                |i: int| degrees@[i] as nat,
            ),
            s@.n_sommet() == n,
            s@.conj == fct,
            s@.size_terminal == 1,
            s@.seq == Seq::<Move>::empty(),
        decreases order@.len() - k,
    {
        let p = order[k];
        proof {
            lemma_degree_fill(n as nat, d as nat, order@, k as int);
        }
        let ghost deg = degree_fill(n as nat, d as nat, order@, k as int).1;
        if p.0 != p.1 && p.0 < n && p.1 < n {
            assert(deg[p.0 as int] == degrees@[p.0 as int]);
            assert(deg[p.1 as int] == degrees@[p.1 as int]);
            if degrees[p.0] <= d && degrees[p.1] <= d {
                s.set_edge(p.0, p.1, true);
                let a = degrees[p.0] + 1;
                degrees.set(p.0, a);
                let b = degrees[p.1] + 1;
                degrees.set(p.1, b);
                assert(degree_fill(n as nat, d as nat, order@, k + 1).1 =~= Seq::new(
                    n as nat,
                    |i: int| degrees@[i] as nat,
                ));
            }
        }
        k += 1;
    }
    s
}

/// A graph on `n` vertices filled by degree from a random order of all pairs;
/// to be scored by conjecture `fct`.
pub fn create_random_regular_graph(n: usize, d: usize, fct: usize) -> (s: State)
    ensures
        s@.n_sommet() == n,
        s@.conj == fct,
        s@.size_terminal == 1,
        s@.seq == Seq::<Move>::empty(),
        exists|order: Seq<(usize, usize)>|
            order.to_multiset() == all_pairs(n as nat).to_multiset() && s@.adj
                == (#[trigger] degree_fill(n as nat, d as nat, order, order.len() as int)).0,
{
    let order = shuffled_pairs(n);
    fill_by_degree(n, d, fct, &order)
}

/// The index of the first pair of `order`, from index `k` on, that names an
/// edge of `g` and whose entry in `g` is `value`; the length where there is
/// none.
pub open spec fn first_with(g: Graph, order: Seq<(usize, usize)>, value: bool, k: int) -> int
    decreases order.len() - k,
{
    if k < 0 || k >= order.len() {
        order.len() as int
    } else if is_edge_of(order[k], g.len()) && g[order[k].0 as int][order[k].1 as int] == value {
        k
    } else {
        first_with(g, order, value, k + 1)
    }
}

/// The graph after a perturbation along `order`.
///
/// The first pair is flipped. Then the first later pair that stands as the
/// first pair now does is flipped the other way, so that where there is one
/// the number of edges is what it was. An `order` whose first pair names no
/// edge of the graph changes nothing.
pub open spec fn perturbed(g: Graph, order: Seq<(usize, usize)>) -> Graph {
    if order.len() == 0 || !is_edge_of(order[0], g.len()) {
        g
    } else {
        let p = order[0];
        let edge = !g[p.0 as int][p.1 as int];
        let g1 = edge_set_to(g, p.0 as int, p.1 as int, edge);
        let t = first_with(g1, order, edge, 1);
        if t < order.len() {
            edge_set_to(g1, order[t].0 as int, order[t].1 as int, !edge)
        } else {
            g1
        }
    }
}

/// `st` perturbed along `order`: the graph changes as [`perturbed`] says, and
/// nothing else does.
pub fn perturb_with(st: &State, order: &Vec<(usize, usize)>) -> (s: State)
    ensures
        s@ == (StateView {
            adj: perturbed(st@.adj, order@),
            n_arete: edge_count(perturbed(st@.adj, order@)),
            ..st@
        }),
{
    let mut s = st.clone();
    let n = s.n_sommet();
    if order.len() == 0 {
        return s;
    }
    let p = order[0];
    if !(p.0 != p.1 && p.0 < n && p.1 < n) {
        return s;
    }
    let edge = !s.has_edge(p.0, p.1);
    s.set_edge(p.0, p.1, edge);
    let ghost g1 = s@.adj;
    let mut k: usize = 1;
    while k < order.len()
        invariant
            1 <= k <= order@.len(),
            is_edge_of(order@[0], st@.adj.len()),
            edge == !st@.adj[order@[0].0 as int][order@[0].1 as int],
            g1 == edge_set_to(st@.adj, order@[0].0 as int, order@[0].1 as int, edge),
            s@.adj == g1,
            n == g1.len(),
            n == st@.adj.len(),
            first_with(g1, order@, edge, 1) == first_with(g1, order@, edge, k as int),
            s@ == (StateView { adj: g1, n_arete: edge_count(g1), ..st@ }),
        decreases order@.len() - k,
    {
        let q = order[k];
        if q.0 != q.1 && q.0 < n && q.1 < n {
            if s.has_edge(q.0, q.1) == edge {
                s.set_edge(q.0, q.1, !edge);
                return s;
            }
        }
        k += 1;
    }
    s
}

/// `st` perturbed along a random order of all pairs of its vertices.
pub fn perturbation(st: &State) -> (s: State)
    ensures
        exists|order: Seq<(usize, usize)>|
            order.to_multiset() == all_pairs(st@.n_sommet()).to_multiset() && s@ == (StateView {
                adj: #[trigger] perturbed(st@.adj, order),
                n_arete: edge_count(perturbed(st@.adj, order)),
                ..st@
            }),
{
    let order = shuffled_pairs(st.n_sommet());
    perturb_with(st, &order)
}

/// A local search in progress: passes over the pairs of vertices in random
/// order, each pair tried as an edge added to the state that the search
/// started from. A pass ends at the first candidate that improves the search;
/// the search ends with the first pass that no candidate improves.
pub struct LocalSearch {
    base: State,
    best: State,
    score: Score,
    order: Vec<(usize, usize)>,
    next: usize,
    improved: bool,
    started: bool,
}

/// What a [`LocalSearch`] stands for.
pub struct LocalSearchView {
    /// The state that the search started from.
    pub base: StateView,
    /// The best state so far.
    pub best: StateView,
    /// The score of that state.
    pub score: Score,
    /// The pairs of the pass under way, in the order in which it tries them.
    pub order: Seq<(usize, usize)>,
    /// How many of them were tried.
    pub next: nat,
    /// A candidate of the pass under way improved the search.
    pub improved: bool,
    /// A pass has begun.
    pub started: bool,
}

impl View for LocalSearch {
    type V = LocalSearchView;

    closed spec fn view(&self) -> LocalSearchView {
        LocalSearchView {
            base: self.base@,
            best: self.best@,
            score: self.score,
            order: self.order@,
            next: self.next as nat,
            improved: self.improved,
            started: self.started,
        }
    }
}

impl LocalSearchView {
    /// The candidate for a pair: the starting state with the pair played as a
    /// move.
    pub open spec fn neighbor(self, pair: (usize, usize)) -> StateView {
        self.base.play(
            Move { ind: self.base.n_sommet() as usize, from: pair.0, to: pair.1 as i64 },
        )
    }

    /// The search after a candidate `state` was given `score`: a score
    /// strictly above the best makes it the best state, stamped with the
    /// score, and ends the pass.
    pub open spec fn offer(self, state: StateView, score: Score) -> LocalSearchView {
        if score.key > self.score.key {
            LocalSearchView {
                best: StateView { best_score: score, ..state },
                score,
                improved: true,
                next: self.order.len(),
                ..self
            }
        } else {
            self
        }
    }

    /// Is the search over? It is once a pass has ended that no candidate
    /// improved.
    pub open spec fn over(self) -> bool {
        self.next >= self.order.len() && self.started && !self.improved
    }
}

impl LocalSearch {
    /// The candidate for `pair`.
    pub fn neighbor(&self, pair: (usize, usize)) -> (s: State)
        ensures
            s@ == self@.neighbor(pair),
    {
        let mut s = self.base.clone();
        s.play(
            Move { ind: self.base.n_sommet(), from: pair.0, to: #[verifier::truncate] (pair.1 as i64) },
        );
        s
    }

    /// The next candidate to score, or `None` where the search is over.
    ///
    /// Within a pass that is the candidate for the next pair. At the end of a
    /// pass that a candidate improved, and at the start, a new pass begins, over
    /// all pairs in a fresh random order.
    pub fn next_candidate(&mut self) -> (cand: Option<State>)
        ensures
            final(self)@.base == old(self)@.base,
            final(self)@.best == old(self)@.best,
            final(self)@.score == old(self)@.score,
            old(self)@.next < old(self)@.order.len() ==> {
                &&& cand.is_some()
                &&& cand.unwrap()@ == old(self)@.neighbor(old(self)@.order[old(self)@.next as int])
                &&& final(self)@ == (LocalSearchView { next: old(self)@.next + 1, ..old(self)@ })
            },
            old(self)@.over() ==> cand.is_none() && final(self)@ == old(self)@,
            old(self)@.next >= old(self)@.order.len() && !old(self)@.over() ==> {
                &&& final(self)@.order.to_multiset() == all_pairs(
                    old(self)@.base.n_sommet(),
                ).to_multiset()
                &&& final(self)@.started
                &&& !final(self)@.improved
                &&& if final(self)@.order.len() == 0 {
                    cand.is_none() && final(self)@.next == 0
                } else {
                    &&& cand.is_some()
                    &&& cand.unwrap()@ == old(self)@.neighbor(final(self)@.order[0])
                    &&& final(self)@.next == 1
                }
            },
    {
        if self.next < self.order.len() {
            let cand = self.neighbor(self.order[self.next]);
            self.next = self.next + 1;
            return Some(cand);
        }
        if self.started && !self.improved {
            return None;
        }
        self.order = shuffled_pairs(self.base.n_sommet());
        self.started = true;
        self.improved = false;
        if self.order.len() == 0 {
            self.next = 0;
            return None;
        }
        let cand = self.neighbor(self.order[0]);
        self.next = 1;
        Some(cand)
    }

    /// Takes a candidate with the score it was given. Says whether it became
    /// the best state, which ends the pass.
    pub fn offer(&mut self, state: &State, score: Score) -> (accepted: bool)
        ensures
            accepted == (score.key > old(self)@.score.key),
            final(self)@ == old(self)@.offer(state@, score),
    {
        if score.exceeds(self.score) {
            let mut held = state.clone();
            held.set_best_score(score);
            self.best = held;
            self.score = score;
            self.improved = true;
            self.next = self.order.len();
            true
        } else {
            false
        }
    }

    /// Ends the search: the best state.
    pub fn finish(self) -> (s: State)
        ensures
            s@ == self@.best,
    {
        self.best
    }
}

/// Begins a local search from `st`, whose score is `score`.
pub fn local_search(st: State, score: Score) -> (ls: LocalSearch)
    ensures
        ls@ == (LocalSearchView {
            base: st@,
            best: st@,
            score,
            order: Seq::empty(),
            next: 0,
            improved: false,
            started: false,
        }),
{
    let best = st.clone();
    LocalSearch {
        base: st,
        best,
        score,
        order: Vec::new(),
        next: 0,
        improved: false,
        started: false,
    }
}

/// An iterated local search in progress.
pub struct Ils {
    st: State,
    incumbent: Incumbent,
}

impl Ils {
    /// The state that the next perturbation starts from.
    pub closed spec fn current(&self) -> StateView {
        self.st@
    }

    /// The best state seen so far.
    pub closed spec fn incumbent(&self) -> IncumbentView {
        self.incumbent@
    }

    /// The state that the next perturbation starts from.
    pub fn state(&self) -> (s: &State)
        ensures
            s@ == self.current(),
    {
        &self.st
    }

    /// The best state seen so far.
    pub fn best_state(&self) -> (s: &State)
        ensures
            s@ == self.incumbent().best_state,
    {
        self.incumbent.best_state()
    }

    /// Does the search go on? It does until the current state records a
    /// score above the counterexample bound.
    pub fn goes_on(&self) -> (b: bool)
        ensures
            b == (self.current().best_score.key <= COUNTEREXAMPLE_KEY),
    {
        !self.st.best_score().is_counterexample()
    }

    /// Takes the state that a perturbation and a local search led to, with
    /// the score recorded in it. The state is offered as the best one, and it
    /// becomes the current state where its score is strictly above that of
    /// the current state.
    pub fn record(&mut self, new_st: State) -> (v: Verdict)
        ensures
            v == verdict_of(old(self).incumbent().best_score, new_st@.best_score),
            final(self).incumbent() == old(self).incumbent().offer(new_st@, new_st@.best_score),
            final(self).current() == if new_st@.best_score.key
                > old(self).current().best_score.key {
                new_st@
            } else {
                old(self).current()
            },
    {
        let score = new_st.best_score();
        let v = self.incumbent.offer(&new_st, score);
        if score.exceeds(self.st.best_score()) {
            self.st = new_st;
        }
        v
    }

    /// What the search returns: the best state where the time is up or a
    /// counterexample was reported, the current state where the search ended
    /// of itself.
    pub fn finish(self, interrupted: bool) -> (s: State)
        ensures
            s@ == if interrupted {
                self.incumbent().best_state
            } else {
                self.current()
            },
    {
        if interrupted {
            self.incumbent.into_state()
        } else {
            self.st
        }
    }
}

/// Begins an iterated local search. `start` is the starting graph with its
/// score recorded in it, and `searched` what a local search made of it: the
/// first is the best state so far, the second the current state.
pub fn iterative_local_search(start: State, searched: State) -> (ils: Ils)
    ensures
        ils.current() == searched@,
        ils.incumbent().best_state == start@,
        ils.incumbent().best_score == start@.best_score,
{
    let score = start.best_score();
    Ils { st: searched, incumbent: Incumbent::with_score(start, score) }
}

} // verus!
