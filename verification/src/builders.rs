//! States built from edge lists: whole graphs given at once, and the four
//! fixed graphs on twelve vertices that the conjectures are probed with.

use vstd::prelude::*;
use crate::graph::{
    all_pairs, edge_count, empty_graph, is_simple, keeps, lemma_empty_graph, lemma_pairs_below,
    lemma_with_edge, with_edge, Graph, Move,
};
use crate::score::NEG_INFINITY_KEY;
use crate::state::State;

verus! {

/// A pair that names an edge of a graph of order `n`: two distinct vertices.
pub open spec fn is_edge_of(p: (usize, usize), n: nat) -> bool {
    p.0 != p.1 && p.0 < n && p.1 < n
}

/// `g` with the pairs of `pairs` joined, in order; a pair that names no edge
/// of `g` is passed over.
pub open spec fn with_edges(g: Graph, pairs: Seq<(usize, usize)>) -> Graph
    decreases pairs.len(),
{
    if pairs.len() == 0 {
        g
    } else {
        let h = with_edges(g, pairs.drop_last());
        let p = pairs.last();
        if is_edge_of(p, g.len()) {
            with_edge(h, p.0 as int, p.1 as int)
        } else {
            h
        }
    }
}

/// The graph on `n` vertices in which every two distinct vertices are joined.
pub open spec fn complete_graph(n: nat) -> Graph {
    Seq::new(n, |i: int| Seq::new(n, |j: int| i != j))
}

/// Does `p` join `a` and `b`, in either direction?
pub open spec fn joins(p: (usize, usize), a: int, b: int) -> bool {
    (p.0 == a && p.1 == b) || (p.0 == b && p.1 == a)
}

/// Does a pair of `pairs` join `a` and `b`?
pub open spec fn names(pairs: Seq<(usize, usize)>, a: int, b: int) -> bool {
    exists|k: int| 0 <= k < pairs.len() && joins(#[trigger] pairs[k], a, b)
}

/// The entries of a graph built from an edge list: two distinct vertices are
/// joined where they were joined before or a pair of the list joins them.
pub proof fn lemma_with_edges(g: Graph, pairs: Seq<(usize, usize)>)
    requires
        is_simple(g),
    ensures
        is_simple(with_edges(g, pairs)),
        with_edges(g, pairs).len() == g.len(),
        forall|a: int, b: int|
            0 <= a < g.len() && 0 <= b < g.len() ==> (#[trigger] with_edges(g, pairs)[a][b] <==> (
            g[a][b] || (a != b && names(pairs, a, b)))),
    decreases pairs.len(),
{
    if pairs.len() > 0 {
        let rest = pairs.drop_last();
        let h = with_edges(g, rest);
        let p = pairs.last();
        let w = with_edges(g, pairs);
        lemma_with_edges(g, rest);
        if is_edge_of(p, g.len()) {
            lemma_with_edge(h, p.0 as int, p.1 as int);
        }
        assert forall|a: int, b: int| 0 <= a < g.len() && 0 <= b < g.len() implies (
        #[trigger] w[a][b] <==> (g[a][b] || (a != b && names(pairs, a, b)))) by {
            assert(h[a].len() == h.len());
            if names(rest, a, b) {
                let k = choose|k: int| 0 <= k < rest.len() && joins(#[trigger] rest[k], a, b);
                assert(pairs[k] == rest[k]);
            }
            if a != b && joins(p, a, b) {
                assert(pairs[pairs.len() - 1] == p);
            }
            if names(pairs, a, b) && !names(rest, a, b) {
                let k = choose|k: int| 0 <= k < pairs.len() && joins(#[trigger] pairs[k], a, b);
                if k < rest.len() {
                    assert(rest[k] == pairs[k]);
                }
            }
        }
    }
}

/// Joining all pairs of the graph without edges gives the complete graph.
pub proof fn lemma_all_pairs_complete(n: nat)
    requires
        n <= usize::MAX,
    ensures
        with_edges(empty_graph(n), all_pairs(n)) == complete_graph(n),
{
    let g = empty_graph(n);
    let pairs = all_pairs(n);
    let w = with_edges(g, pairs);
    let c = complete_graph(n);
    lemma_empty_graph(n);
    lemma_with_edges(g, pairs);
    lemma_pairs_below(n as int, n as int, keeps(Seq::empty(), None));
    assert forall|a: int| 0 <= a < n implies #[trigger] w[a] =~= c[a] by {
        assert(w[a].len() == w.len());
        assert forall|b: int| 0 <= b < n implies w[a][b] == c[a][b] by {
            if a != b {
                let lo = if a < b {
                    a
                } else {
                    b
                };
                let hi = if a < b {
                    b
                } else {
                    a
                };
                let p = (lo as usize, hi as usize);
                assert(keeps(Seq::empty(), None)(lo, hi));
                assert(pairs.contains(p));
                let k = choose|k: int| 0 <= k < pairs.len() && pairs[k] == p;
                assert(joins(pairs[k], a, b));
            }
        }
    }
    assert(w =~= c);
}

/// `p` stands before `q` in lexicographic order.
pub open spec fn stands_before(p: (usize, usize), q: (usize, usize)) -> bool {
    p.0 < q.0 || (p.0 == q.0 && p.1 < q.1)
}

/// The pairs name edges of a graph of order `n`, each with its smaller vertex
/// first, in strictly ascending lexicographic order: no edge is named twice.
pub open spec fn is_edge_list(pairs: Seq<(usize, usize)>, n: nat) -> bool {
    &&& forall|k: int| 0 <= k < pairs.len() ==> (#[trigger] pairs[k]).0 < pairs[k].1 < n
    &&& forall|k: int|
        0 <= k < pairs.len() - 1 ==> stands_before(#[trigger] pairs[k], pairs[k + 1])
}

/// In an edge list every pair stands before all later ones.
pub proof fn lemma_edge_list_ascends(pairs: Seq<(usize, usize)>, n: nat, i: int, j: int)
    requires
        is_edge_list(pairs, n),
        0 <= i < j < pairs.len(),
    ensures
        stands_before(pairs[i], pairs[j]),
    decreases j - i,
{
    if i + 1 < j {
        lemma_edge_list_ascends(pairs, n, i, j - 1);
        assert(stands_before(pairs[j - 1], pairs[j]));
    } else {
        assert(stands_before(pairs[i], pairs[i + 1]));
    }
}

/// The graph built from an edge list has as many edges as the list has pairs.
pub proof fn lemma_edge_list_count(n: nat, pairs: Seq<(usize, usize)>)
    requires
        is_edge_list(pairs, n),
    ensures
        edge_count(with_edges(empty_graph(n), pairs)) == pairs.len(),
    decreases pairs.len(),
{
    lemma_empty_graph(n);
    if pairs.len() > 0 {
        let rest = pairs.drop_last();
        let p = pairs.last();
        let h = with_edges(empty_graph(n), rest);
        assert(is_edge_list(rest, n)) by {
            assert forall|k: int| 0 <= k < rest.len() - 1 implies stands_before(
                #[trigger] rest[k],
                rest[k + 1],
            ) by {
                assert(stands_before(pairs[k], pairs[k + 1]));
            }
        }
        lemma_edge_list_count(n, rest);
        lemma_with_edges(empty_graph(n), rest);
        assert(is_edge_of(p, n));
        if names(rest, p.0 as int, p.1 as int) {
            let k = choose|k: int|
                0 <= k < rest.len() && joins(#[trigger] rest[k], p.0 as int, p.1 as int);
            lemma_edge_list_ascends(pairs, n, k, pairs.len() - 1);
            assert(rest[k] == pairs[k]);
        }
        assert(h[p.0 as int].len() == h.len());
        assert(!h[p.0 as int][p.1 as int]);
        lemma_with_edge(h, p.0 as int, p.1 as int);
    }
}

/// The graph on `n` vertices with the edges that `pairs` names, under the
/// vertex cap `size_terminal` and the conjecture `conj`; no move played and no
/// score seen. A pair that names no edge of the graph is passed over.
pub fn from_edges(n: usize, size_terminal: usize, conj: usize, pairs: &Vec<(usize, usize)>) -> (s:
    State)
    ensures
        s@.adj == with_edges(empty_graph(n as nat), pairs@),
        s@.n_arete == edge_count(s@.adj),
        s@.n_sommet() == n,
        s@.size_terminal == size_terminal,
        s@.conj == conj,
        s@.seq == Seq::<Move>::empty(),
        s@.best_score.key == NEG_INFINITY_KEY,
{
    let mut s = State::empty(n, size_terminal, conj);
    let mut k: usize = 0;
    proof {
        lemma_empty_graph(n as nat);
        assert(pairs@.take(0) =~= Seq::<(usize, usize)>::empty());
    }
    while k < pairs.len()
        invariant
            k <= pairs@.len(),
            s@.adj == with_edges(empty_graph(n as nat), pairs@.take(k as int)),
            s@.n_sommet() == n,
            s@.size_terminal == size_terminal,
            s@.conj == conj,
            s@.seq == Seq::<Move>::empty(),
            s@.best_score.key == NEG_INFINITY_KEY,
        decreases pairs@.len() - k,
    {
        let p = pairs[k];
        proof {
            assert(pairs@.take(k + 1).drop_last() =~= pairs@.take(k as int));
            assert(pairs@.take(k + 1).last() == p);
            lemma_empty_graph(n as nat);
        }
        if p.0 != p.1 && p.0 < n && p.1 < n {
            s.set_edge(p.0, p.1, true);
        }
        k += 1;
    }
    assert(pairs@.take(k as int) =~= pairs@);
    proof {
        use_type_invariant(&s);
        s.lemma_wf();
    }
    s
}

/// The state that the moves of `moves` build from a single vertex, under the
/// vertex cap `size_terminal` and the conjecture `conj`.
pub fn replay(moves: &Vec<Move>, size_terminal: usize, conj: usize) -> (s: State)
    ensures
        s@.adj == crate::graph::replay(moves@),
        s@.replayable(),
        s@.seq == moves@,
        s@.size_terminal == size_terminal,
        s@.conj == conj,
        s@.best_score.key == NEG_INFINITY_KEY,
{
    let mut s = State::new();
    s.set_size_terminal(size_terminal);
    s.set_conj(conj);
    let mut k: usize = 0;
    while k < moves.len()
        invariant
            k <= moves@.len(),
            s@.replayable(),
            s@.seq == moves@.take(k as int),
            s@.size_terminal == size_terminal,
            s@.conj == conj,
            s@.best_score.key == NEG_INFINITY_KEY,
        decreases moves@.len() - k,
    {
        s.play(moves[k]);
        k += 1;
        assert(s@.seq =~= moves@.take(k as int));
    }
    assert(moves@.take(k as int) =~= moves@);
    s
}

/// The edges of the first probe graph.
pub open spec fn sq_star_edges() -> Seq<(usize, usize)> {
    seq![
        (0usize, 1usize),
        (0usize, 5usize),
        (0usize, 6usize),
        (1usize, 2usize),
        (1usize, 7usize),
        (2usize, 3usize),
        (2usize, 8usize),
        (3usize, 4usize),
        (3usize, 9usize),
        (4usize, 5usize),
        (4usize, 10usize),
        (5usize, 11usize),
        (6usize, 7usize),
        (6usize, 9usize),
        (6usize, 11usize),
        (7usize, 8usize),
        (7usize, 10usize),
        (8usize, 9usize),
        (8usize, 11usize),
        (9usize, 10usize),
        (10usize, 11usize),
    ]
}

/// The edges of the probe graph for the seventeenth conjecture.
pub open spec fn sq_17_edges() -> Seq<(usize, usize)> {
    seq![
        (0usize, 1usize),
        (0usize, 11usize),
        (1usize, 2usize),
        (1usize, 4usize),
        (1usize, 10usize),
        (2usize, 3usize),
        (2usize, 5usize),
        (2usize, 11usize),
        (3usize, 4usize),
        (4usize, 5usize),
        (4usize, 7usize),
        (5usize, 6usize),
        (5usize, 8usize),
        (6usize, 7usize),
        (7usize, 8usize),
        (7usize, 10usize),
        (8usize, 9usize),
        (8usize, 11usize),
        (9usize, 10usize),
        (10usize, 11usize),
    ]
}

/// The edges of the probe graph for the fiftieth conjecture.
pub open spec fn sq_50_edges() -> Seq<(usize, usize)> {
    seq![
        (0usize, 1usize),
        (0usize, 11usize),
        (1usize, 2usize),
        (2usize, 3usize),
        (2usize, 9usize),
        (3usize, 4usize),
        (3usize, 8usize),
        (3usize, 10usize),
        (4usize, 5usize),
        (4usize, 7usize),
        (4usize, 9usize),
        (5usize, 6usize),
        (5usize, 8usize),
        (6usize, 7usize),
        (7usize, 8usize),
        (8usize, 9usize),
        (9usize, 10usize),
        (10usize, 11usize),
    ]
}

/// The edges of the probe graph for the sixty-sixth conjecture.
pub open spec fn sq_66_edges() -> Seq<(usize, usize)> {
    seq![
        (0usize, 1usize),
        (1usize, 2usize),
        (2usize, 3usize),
        (3usize, 4usize),
        (3usize, 11usize),
        (4usize, 5usize),
        (4usize, 10usize),
        (5usize, 6usize),
        (5usize, 11usize),
        (6usize, 7usize),
        (7usize, 8usize),
        (8usize, 9usize),
        (9usize, 10usize),
        (10usize, 11usize),
    ]
}

/// The first probe graph, twelve vertices and twenty-one edges, to be scored
/// by conjecture `i`.
#[allow(non_snake_case)]
pub fn construct_SQ_star(i: usize) -> (s: State)
    ensures
        s@.adj == with_edges(empty_graph(12), sq_star_edges()),
        s@.n_arete == 21,
        s@.n_sommet() == 12,
        s@.conj == i,
        s@.size_terminal == 1,
        s@.seq == Seq::<Move>::empty(),
{
    let aretes: Vec<(usize, usize)> = vec![
        (0, 1),
        (0, 5),
        (0, 6),
        (1, 2),
        (1, 7),
        (2, 3),
        (2, 8),
        (3, 4),
        (3, 9),
        (4, 5),
        (4, 10),
        (5, 11),
        (6, 7),
        (6, 9),
        (6, 11),
        (7, 8),
        (7, 10),
        (8, 9),
        (8, 11),
        (9, 10),
        (10, 11),
    ];
    proof {
        assert(aretes@ =~= sq_star_edges());
        assert(is_edge_list(sq_star_edges(), 12));
        lemma_edge_list_count(12, sq_star_edges());
    }
    from_edges(12, 1, i, &aretes)
}

/// The probe graph for the seventeenth conjecture, twelve vertices and twenty
/// edges, to be scored by conjecture `i`.
#[allow(non_snake_case)]
pub fn construct_SQ_17(i: usize) -> (s: State)
    ensures
        s@.adj == with_edges(empty_graph(12), sq_17_edges()),
        s@.n_arete == 20,
        s@.n_sommet() == 12,
        s@.conj == i,
        s@.size_terminal == 1,
        s@.seq == Seq::<Move>::empty(),
{
    let aretes: Vec<(usize, usize)> = vec![
        (0, 1),
        (0, 11),
        (1, 2),
        (1, 4),
        (1, 10),
        (2, 3),
        (2, 5),
        (2, 11),
        (3, 4),
        (4, 5),
        (4, 7),
        (5, 6),
        (5, 8),
        (6, 7),
        (7, 8),
        (7, 10),
        (8, 9),
        (8, 11),
        (9, 10),
        (10, 11),
    ];
    proof {
        assert(aretes@ =~= sq_17_edges());
        assert(is_edge_list(sq_17_edges(), 12));
        lemma_edge_list_count(12, sq_17_edges());
    }
    from_edges(12, 1, i, &aretes)
}

/// The probe graph for the fiftieth conjecture, twelve vertices and eighteen
/// edges, to be scored by conjecture `i`.
#[allow(non_snake_case)]
pub fn construct_SQ_50(i: usize) -> (s: State)
    ensures
        s@.adj == with_edges(empty_graph(12), sq_50_edges()),
        s@.n_arete == 18,
        s@.n_sommet() == 12,
        s@.conj == i,
        s@.size_terminal == 1,
        s@.seq == Seq::<Move>::empty(),
{
    let aretes: Vec<(usize, usize)> = vec![
        (0, 1),
        (0, 11),
        (1, 2),
        (2, 3),
        (2, 9),
        (3, 4),
        (3, 8),
        (3, 10),
        (4, 5),
        (4, 7),
        (4, 9),
        (5, 6),
        (5, 8),
        (6, 7),
        (7, 8),
        (8, 9),
        (9, 10),
        (10, 11),
    ];
    proof {
        assert(aretes@ =~= sq_50_edges());
        assert(is_edge_list(sq_50_edges(), 12));
        lemma_edge_list_count(12, sq_50_edges());
    }
    from_edges(12, 1, i, &aretes)
}

/// The probe graph for the sixty-sixth conjecture, twelve vertices and
/// fourteen edges, to be scored by conjecture `i`.
#[allow(non_snake_case)]
pub fn construct_SQ_66(i: usize) -> (s: State)
    ensures
        s@.adj == with_edges(empty_graph(12), sq_66_edges()),
        s@.n_arete == 14,
        s@.n_sommet() == 12,
        s@.conj == i,
        s@.size_terminal == 1,
        s@.seq == Seq::<Move>::empty(),
{
    let aretes: Vec<(usize, usize)> = vec![
        (0, 1),
        (1, 2),
        (2, 3),
        (3, 4),
        (3, 11),
        (4, 5),
        (4, 10),
        (5, 6),
        (5, 11),
        (6, 7),
        (7, 8),
        (8, 9),
        (9, 10),
        (10, 11),
    ];
    proof {
        assert(aretes@ =~= sq_66_edges());
        assert(is_edge_list(sq_66_edges(), 12));
        lemma_edge_list_count(12, sq_66_edges());
    }
    from_edges(12, 1, i, &aretes)
}

} // verus!
