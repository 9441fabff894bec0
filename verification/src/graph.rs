//! Adjacency matrices as mathematical values: what a simple graph is, how a
//! move changes one, and how many edges it has.

use vstd::prelude::*;
use vstd::set_lib::*;

verus! {

/// One step of a construction: connect `from` to `to`, or to a fresh vertex
/// where `to` is `-1`. `ind` is the number of vertices at which the move was
/// generated; it takes part in equality and hashing only.
#[derive(PartialEq, Eq, Structural, Hash, Clone, Copy, Debug)]
pub struct Move {
    pub ind: usize,
    pub from: usize,
    pub to: i64,
}

/// An adjacency matrix: `g[i][j]` says whether `i` and `j` are joined.
pub type Graph = Seq<Seq<bool>>;

/// Every row is as long as the matrix is high.
pub open spec fn is_square(g: Graph) -> bool {
    forall|i: int| 0 <= i < g.len() ==> (#[trigger] g[i]).len() == g.len()
}

/// A square matrix that is symmetric and has an empty diagonal.
pub open spec fn is_simple(g: Graph) -> bool {
    &&& is_square(g)
    &&& forall|i: int, j: int|
        0 <= i < g.len() && 0 <= j < g.len() ==> #[trigger] g[i][j] == g[j][i]
    &&& forall|i: int| 0 <= i < g.len() ==> !(#[trigger] g[i])[i]
}

/// The entries above the diagonal that are set, as pairs `(i, j)` with `i < j`.
pub open spec fn edge_set(g: Graph) -> Set<(int, int)> {
    Set::new(|p: (int, int)| 0 <= p.0 < p.1 < g.len() && g[p.0][p.1])
}

/// The number of edges.
pub open spec fn edge_count(g: Graph) -> nat {
    edge_set(g).len()
}

/// The graph on `n` vertices without edges.
pub open spec fn empty_graph(n: nat) -> Graph {
    Seq::new(n, |i: int| Seq::new(n, |j: int| false))
}

/// `g` with `a` and `b` joined.
pub open spec fn with_edge(g: Graph, a: int, b: int) -> Graph {
    Seq::new(
        g.len(),
        |i: int| Seq::new(g.len(), |j: int| g[i][j] || (i == a && j == b) || (i == b && j == a)),
    )
}

/// `g` with `a` and `b` parted.
pub open spec fn without_edge(g: Graph, a: int, b: int) -> Graph {
    Seq::new(
        g.len(),
        |i: int| Seq::new(g.len(), |j: int| g[i][j] && !(i == a && j == b) && !(i == b && j == a)),
    )
}

/// `g` with `a` and `b` joined where `value` holds, parted where not.
pub open spec fn edge_set_to(g: Graph, a: int, b: int, value: bool) -> Graph {
    if value {
        with_edge(g, a, b)
    } else {
        without_edge(g, a, b)
    }
}

/// `g` with one more vertex, joined to `a` alone.
pub open spec fn with_new_vertex(g: Graph, a: int) -> Graph {
    let n = g.len() as int;
    Seq::new(
        (n + 1) as nat,
        |i: int|
            Seq::new(
                (n + 1) as nat,
                |j: int|
                    if i < n && j < n {
                        g[i][j]
                    } else {
                        (i == a && j == n) || (i == n && j == a)
                    },
            ),
    )
}

/// The graph after `m` is played on `g`.
///
/// A loop, a source that is no vertex of `g`, or a target below `-1` changes
/// nothing. A target that is `-1` or no vertex of `g` appends a vertex and
/// joins it to the source. Otherwise source and target are joined, which
/// changes nothing where they already were.
pub open spec fn graph_after(g: Graph, m: Move) -> Graph {
    if m.from as int == m.to as int || m.from >= g.len() || m.to < -1 {
        g
    } else if m.to == -1 || m.to >= g.len() {
        with_new_vertex(g, m.from as int)
    } else {
        with_edge(g, m.from as int, m.to as int)
    }
}

/// The graph after the moves of `moves` are played on `g` in order.
pub open spec fn replay_from(g: Graph, moves: Seq<Move>) -> Graph
    decreases moves.len(),
{
    if moves.len() == 0 {
        g
    } else {
        graph_after(replay_from(g, moves.drop_last()), moves.last())
    }
}

/// The graph that a move sequence builds from a single vertex.
pub open spec fn replay(moves: Seq<Move>) -> Graph {
    replay_from(empty_graph(1), moves)
}

/// Does `m` add an edge to `g` under the vertex cap `size_terminal`, in the
/// form in which the move generator writes it?
pub open spec fn is_legal(g: Graph, size_terminal: nat, m: Move) -> bool {
    &&& m.ind == g.len()
    &&& m.from < g.len()
    &&& if m.to == -1 {
        g.len() < size_terminal
    } else {
        m.from < m.to < g.len() && !g[m.from as int][m.to as int]
    }
}

/// The pairs `(r, j)` with `j < n`.
pub open spec fn grid_row(r: int, n: nat) -> Set<(int, int)> {
    Set::new(|p: (int, int)| p.0 == r && 0 <= p.1 < n)
}

/// The pairs `(i, j)` with `i < rows` and `j < n`.
pub open spec fn grid(rows: nat, n: nat) -> Set<(int, int)> {
    Set::new(|p: (int, int)| 0 <= p.0 < rows && 0 <= p.1 < n)
}

/// A row of the grid is finite, with no more pairs than columns.
pub proof fn lemma_grid_row(r: int, n: nat)
    ensures
        grid_row(r, n).finite(),
        grid_row(r, n).len() <= n,
    decreases n,
{
    if n == 0 {
        assert(grid_row(r, n) =~= Set::empty());
    } else {
        lemma_grid_row(r, (n - 1) as nat);
        assert(grid_row(r, n) =~= grid_row(r, (n - 1) as nat).insert((r, n - 1)));
    }
}

/// The grid is finite, with no more pairs than rows times columns.
pub proof fn lemma_grid(rows: nat, n: nat)
    ensures
        grid(rows, n).finite(),
        grid(rows, n).len() <= rows * n,
    decreases rows,
{
    if rows == 0 {
        assert(grid(rows, n) =~= Set::empty());
    } else {
        let r = (rows - 1) as nat;
        lemma_grid(r, n);
        lemma_grid_row(r as int, n);
        assert(grid(rows, n) =~= grid(r, n).union(grid_row(r as int, n)));
        lemma_len_union(grid(r, n), grid_row(r as int, n));
        assert(rows * n == r * n + n) by (nonlinear_arith)
            requires
                rows == r + 1,
        ;
    }
}

/// A graph has finitely many edges, fewer than the square of its order.
pub proof fn lemma_edge_count_bound(g: Graph)
    ensures
        edge_set(g).finite(),
        edge_count(g) <= g.len() * g.len(),
{
    lemma_grid(g.len(), g.len());
    assert(edge_set(g).subset_of(grid(g.len(), g.len())));
    lemma_len_subset(edge_set(g), grid(g.len(), g.len()));
}

/// The graph without edges has none.
pub proof fn lemma_empty_graph(n: nat)
    ensures
        is_simple(empty_graph(n)),
        edge_count(empty_graph(n)) == 0,
        empty_graph(n).len() == n,
{
    assert(edge_set(empty_graph(n)) =~= Set::empty());
}

/// Joining two distinct vertices keeps the graph simple, and adds one edge
/// where there was none.
pub proof fn lemma_with_edge(g: Graph, a: int, b: int)
    requires
        is_simple(g),
        0 <= a < g.len(),
        0 <= b < g.len(),
        a != b,
    ensures
        is_simple(with_edge(g, a, b)),
        with_edge(g, a, b).len() == g.len(),
        g[a][b] ==> with_edge(g, a, b) == g,
        !g[a][b] ==> edge_count(with_edge(g, a, b)) == edge_count(g) + 1,
{
    let h = with_edge(g, a, b);
    lemma_edge_count_bound(g);
    if g[a][b] {
        assert(g[b][a]);
        assert forall|i: int| 0 <= i < g.len() implies #[trigger] h[i] == g[i] by {
            assert(h[i] =~= g[i]);
        }
        assert(h =~= g);
    } else {
        let lo = if a < b { a } else { b };
        let hi = if a < b { b } else { a };
        assert(!g[lo][hi]);
        assert(edge_set(h) =~= edge_set(g).insert((lo, hi)));
    }
}

/// Parting two distinct vertices keeps the graph simple, and removes one edge
/// where there was one.
pub proof fn lemma_without_edge(g: Graph, a: int, b: int)
    requires
        is_simple(g),
        0 <= a < g.len(),
        0 <= b < g.len(),
        a != b,
    ensures
        is_simple(without_edge(g, a, b)),
        without_edge(g, a, b).len() == g.len(),
        !g[a][b] ==> without_edge(g, a, b) == g,
        g[a][b] ==> edge_count(without_edge(g, a, b)) + 1 == edge_count(g),
{
    let h = without_edge(g, a, b);
    lemma_edge_count_bound(g);
    if !g[a][b] {
        assert(!g[b][a]);
        assert forall|i: int| 0 <= i < g.len() implies #[trigger] h[i] == g[i] by {
            assert(h[i] =~= g[i]);
        }
        assert(h =~= g);
    } else {
        let lo = if a < b { a } else { b };
        let hi = if a < b { b } else { a };
        assert(g[lo][hi]);
        assert(edge_set(h) =~= edge_set(g).remove((lo, hi)));
    }
}

/// Appending a vertex joined to `a` keeps the graph simple and adds one edge.
pub proof fn lemma_with_new_vertex(g: Graph, a: int)
    requires
        is_simple(g),
        0 <= a < g.len(),
    ensures
        is_simple(with_new_vertex(g, a)),
        with_new_vertex(g, a).len() == g.len() + 1,
        edge_count(with_new_vertex(g, a)) == edge_count(g) + 1,
{
    let h = with_new_vertex(g, a);
    lemma_edge_count_bound(g);
    assert(edge_set(h) =~= edge_set(g).insert((a, g.len() as int)));
}

/// Symmetry, the empty diagonal and the edge count under any move: a played
/// move leaves a simple graph simple, and adds at most one edge.
pub proof fn lemma_graph_after(g: Graph, m: Move)
    requires
        is_simple(g),
    ensures
        is_simple(graph_after(g, m)),
        g.len() <= graph_after(g, m).len() <= g.len() + 1,
        edge_count(g) <= edge_count(graph_after(g, m)) <= edge_count(g) + 1,
{
    if m.from as int == m.to as int || m.from >= g.len() || m.to < -1 {
    } else if m.to == -1 || m.to >= g.len() {
        lemma_with_new_vertex(g, m.from as int);
    } else {
        lemma_with_edge(g, m.from as int, m.to as int);
    }
}

/// A legal move adds exactly one edge, and a vertex exactly where its target
/// is the sentinel.
pub proof fn lemma_legal_move_adds_edge(g: Graph, size_terminal: nat, m: Move)
    requires
        is_simple(g),
        is_legal(g, size_terminal, m),
    ensures
        is_simple(graph_after(g, m)),
        edge_count(graph_after(g, m)) == edge_count(g) + 1,
        graph_after(g, m).len() == if m.to == -1 {
            g.len() + 1
        } else {
            g.len()
        },
{
    if m.to == -1 {
        lemma_with_new_vertex(g, m.from as int);
    } else {
        lemma_with_edge(g, m.from as int, m.to as int);
    }
}

/// Every graph that a sequence of moves builds from a simple graph is simple.
pub proof fn lemma_replay_from_simple(g: Graph, moves: Seq<Move>)
    requires
        is_simple(g),
    ensures
        is_simple(replay_from(g, moves)),
        replay_from(g, moves).len() >= g.len(),
    decreases moves.len(),
{
    if moves.len() > 0 {
        lemma_replay_from_simple(g, moves.drop_last());
        lemma_graph_after(replay_from(g, moves.drop_last()), moves.last());
    }
}

/// Is each move of `moves` open when it is played, where the moves are played
/// on `g` in order under the vertex cap `size_terminal`?
pub open spec fn is_legal_run(g: Graph, size_terminal: nat, moves: Seq<Move>) -> bool
    decreases moves.len(),
{
    moves.len() == 0 || (is_legal_run(g, size_terminal, moves.drop_last()) && is_legal(
        replay_from(g, moves.drop_last()),
        size_terminal,
        moves.last(),
    ))
}

/// The greater of the order of `g` and the vertex cap: the order that no run
/// of open moves exceeds.
pub open spec fn order_bound(g: Graph, size_terminal: nat) -> nat {
    if g.len() >= size_terminal {
        g.len()
    } else {
        size_terminal
    }
}

/// A run of open moves adds one edge with each move and never exceeds the
/// order bound, so it is no longer than the square of that bound: every
/// rollout ends.
pub proof fn lemma_legal_run_is_bounded(g: Graph, size_terminal: nat, moves: Seq<Move>)
    requires
        is_simple(g),
        is_legal_run(g, size_terminal, moves),
    ensures
        is_simple(replay_from(g, moves)),
        edge_count(replay_from(g, moves)) == edge_count(g) + moves.len(),
        g.len() <= replay_from(g, moves).len() <= order_bound(g, size_terminal),
        edge_count(g) + moves.len() <= order_bound(g, size_terminal) * order_bound(
            g,
            size_terminal,
        ),
    decreases moves.len(),
{
    let b = order_bound(g, size_terminal);
    if moves.len() > 0 {
        lemma_legal_run_is_bounded(g, size_terminal, moves.drop_last());
        lemma_legal_move_adds_edge(
            replay_from(g, moves.drop_last()),
            size_terminal,
            moves.last(),
        );
    }
    let h = replay_from(g, moves);
    lemma_edge_count_bound(h);
    assert(h.len() * h.len() <= b * b) by (nonlinear_arith)
        requires
            h.len() <= b,
    ;
}

/// Replaying one more move is playing it on what the others built.
pub proof fn lemma_replay_push(g: Graph, moves: Seq<Move>, m: Move)
    ensures
        replay_from(g, moves.push(m)) == graph_after(replay_from(g, moves), m),
{
    assert(moves.push(m).drop_last() =~= moves);
}

/// The pairs `(i, j)` with `i < j < k` that `keep` admits, by ascending `j`.
pub open spec fn row_pairs(i: int, k: int, keep: spec_fn(int, int) -> bool) -> Seq<(usize, usize)>
    decreases k - i,
{
    if k <= i + 1 {
        Seq::empty()
    } else {
        let rest = row_pairs(i, k - 1, keep);
        if keep(i, k - 1) {
            rest.push((i as usize, (k - 1) as usize))
        } else {
            rest
        }
    }
}

/// The pairs `(i, j)` with `i < r` and `i < j < n` that `keep` admits, by
/// ascending `i`, then ascending `j`.
pub open spec fn pairs_below(r: int, n: int, keep: spec_fn(int, int) -> bool) -> Seq<
    (usize, usize),
>
    decreases r,
{
    if r <= 0 {
        Seq::empty()
    } else {
        pairs_below(r - 1, n, keep) + row_pairs(r - 1, n, keep)
    }
}

/// The unordered pairs of vertices below `n` that `keep` admits, each written
/// with its smaller vertex first, in lexicographic order.
pub open spec fn pairs_such(n: nat, keep: spec_fn(int, int) -> bool) -> Seq<(usize, usize)> {
    pairs_below(n as int, n as int, keep)
}

/// Which pairs an enumeration keeps: all of them, or those whose entry in `g`
/// is `want`.
pub open spec fn keeps(g: Graph, want: Option<bool>) -> spec_fn(int, int) -> bool {
    |i: int, j: int|
        match want {
            None => true,
            Some(v) => g[i][j] == v,
        }
}

/// All unordered pairs of vertices below `n`.
pub open spec fn all_pairs(n: nat) -> Seq<(usize, usize)> {
    pairs_such(n, keeps(Seq::empty(), None))
}

/// The edges of `g`, in lexicographic order.
pub open spec fn edges(g: Graph) -> Seq<(usize, usize)> {
    pairs_such(g.len(), keeps(g, Some(true)))
}

/// The pairs of distinct vertices of `g` that no edge joins, in lexicographic
/// order.
pub open spec fn non_edges(g: Graph) -> Seq<(usize, usize)> {
    pairs_such(g.len(), keeps(g, Some(false)))
}

/// The moves that add a vertex to a graph of order `n`: one for each vertex,
/// by ascending source.
pub open spec fn vertex_moves(n: nat) -> Seq<Move> {
    Seq::new(n, |i: int| Move { ind: n as usize, from: i as usize, to: -1i64 })
}

/// The moves that add an edge inside `g`: one for each pair that no edge
/// joins, in lexicographic order.
pub open spec fn edge_moves(g: Graph) -> Seq<Move> {
    Seq::new(
        non_edges(g).len(),
        |k: int|
            Move { ind: g.len() as usize, from: non_edges(g)[k].0, to: non_edges(g)[k].1 as i64 },
    )
}

/// The moves open on `g` under the vertex cap `size_terminal`: below the cap
/// the moves that add a vertex, then in any case the moves that add an edge.
pub open spec fn legal_moves(g: Graph, size_terminal: nat) -> Seq<Move> {
    if g.len() < size_terminal {
        vertex_moves(g.len()) + edge_moves(g)
    } else {
        edge_moves(g)
    }
}

/// What a row enumeration holds: exactly the admitted pairs of its row, and
/// they ascend.
pub proof fn lemma_row_pairs(i: int, k: int, keep: spec_fn(int, int) -> bool)
    requires
        0 <= i,
        k <= usize::MAX + 1,
    ensures
        forall|t: int|
            0 <= t < row_pairs(i, k, keep).len() ==> {
                let p = #[trigger] row_pairs(i, k, keep)[t];
                p.0 == i && i < p.1 < k && keep(i, p.1 as int)
            },
        forall|t: int, u: int|
            0 <= t < u < row_pairs(i, k, keep).len() ==> (#[trigger] row_pairs(i, k, keep)[t]).1 < (
            #[trigger] row_pairs(i, k, keep)[u]).1,
        forall|p: (usize, usize)|
            p.0 == i && i < p.1 < k && keep(i, p.1 as int) ==> #[trigger] row_pairs(
                i,
                k,
                keep,
            ).contains(p),
    decreases k - i,
{
    if k <= i + 1 {
    } else {
        lemma_row_pairs(i, k - 1, keep);
        let rest = row_pairs(i, k - 1, keep);
        let all = row_pairs(i, k, keep);
        assert forall|p: (usize, usize)|
            p.0 == i && i < p.1 < k && keep(i, p.1 as int) implies #[trigger] all.contains(p) by {
            if p.1 < k - 1 {
                assert(rest.contains(p));
                let t = choose|t: int| 0 <= t < rest.len() && rest[t] == p;
                assert(all[t] == p);
            } else {
                assert(all[all.len() - 1] == p);
            }
        }
    }
}

/// What an enumeration of pairs holds: exactly the admitted pairs, each once,
/// in lexicographic order.
pub proof fn lemma_pairs_below(r: int, n: int, keep: spec_fn(int, int) -> bool)
    requires
        0 <= r <= n <= usize::MAX + 1,
    ensures
        forall|t: int|
            0 <= t < pairs_below(r, n, keep).len() ==> {
                let p = #[trigger] pairs_below(r, n, keep)[t];
                p.0 < r && p.0 < p.1 < n && keep(p.0 as int, p.1 as int)
            },
        forall|t: int, u: int|
            0 <= t < u < pairs_below(r, n, keep).len() ==> {
                let p = #[trigger] pairs_below(r, n, keep)[t];
                let q = #[trigger] pairs_below(r, n, keep)[u];
                p.0 < q.0 || (p.0 == q.0 && p.1 < q.1)
            },
        forall|p: (usize, usize)|
            p.0 < r && p.0 < p.1 < n && keep(p.0 as int, p.1 as int) ==> #[trigger] pairs_below(
                r,
                n,
                keep,
            ).contains(p),
    decreases r,
{
    if r <= 0 {
    } else {
        lemma_pairs_below(r - 1, n, keep);
        lemma_row_pairs(r - 1, n, keep);
        let head = pairs_below(r - 1, n, keep);
        let row = row_pairs(r - 1, n, keep);
        let all = pairs_below(r, n, keep);
        assert forall|t: int| 0 <= t < all.len() implies {
            let p = #[trigger] all[t];
            p.0 < r && p.0 < p.1 < n && keep(p.0 as int, p.1 as int)
        } by {
            if t < head.len() {
                assert(all[t] == head[t]);
            } else {
                assert(all[t] == row[t - head.len()]);
            }
        }
        assert forall|t: int, u: int| 0 <= t < u < all.len() implies {
            let p = #[trigger] all[t];
            let q = #[trigger] all[u];
            p.0 < q.0 || (p.0 == q.0 && p.1 < q.1)
        } by {
            if u < head.len() {
                assert(all[t] == head[t] && all[u] == head[u]);
            } else if t < head.len() {
                assert(all[t] == head[t] && all[u] == row[u - head.len()]);
            } else {
                assert(all[t] == row[t - head.len()] && all[u] == row[u - head.len()]);
            }
        }
        assert forall|p: (usize, usize)|
            p.0 < r && p.0 < p.1 < n && keep(p.0 as int, p.1 as int) implies #[trigger] all.contains(
            p,
        ) by {
            if p.0 < r - 1 {
                assert(head.contains(p));
                let t = choose|t: int| 0 <= t < head.len() && head[t] == p;
                assert(all[t] == p);
            } else {
                assert(row.contains(p));
                let t = choose|t: int| 0 <= t < row.len() && row[t] == p;
                assert(all[head.len() + t] == p);
            }
        }
    }
}

/// The edge list names each edge once: it has as many pairs as the graph has
/// edges.
pub proof fn lemma_edges_count(g: Graph)
    requires
        is_square(g),
        g.len() <= usize::MAX,
    ensures
        edges(g).no_duplicates(),
        edges(g).len() == edge_count(g),
{
    let n = g.len() as int;
    let keep = keeps(g, Some(true));
    let s = edges(g);
    lemma_pairs_below(n, n, keep);
    let t = Seq::new(s.len(), |k: int| (s[k].0 as int, s[k].1 as int));
    assert forall|i: int, j: int| 0 <= i < s.len() && 0 <= j < s.len() && i != j implies s[i]
        != s[j] by {
        if i < j {
            let p = s[i];
            let q = s[j];
            assert(p.0 < q.0 || (p.0 == q.0 && p.1 < q.1));
        } else {
            let p = s[j];
            let q = s[i];
            assert(p.0 < q.0 || (p.0 == q.0 && p.1 < q.1));
        }
    }
    assert forall|i: int, j: int| 0 <= i < t.len() && 0 <= j < t.len() && i != j implies t[i]
        != t[j] by {
        assert(s[i] != s[j]);
    }
    t.unique_seq_to_set();
    assert forall|p: (int, int)| t.to_set().contains(p) <==> edge_set(g).contains(p) by {
        if t.contains(p) {
            let k = choose|k: int| 0 <= k < t.len() && t[k] == p;
            let q = s[k];
            assert(keep(q.0 as int, q.1 as int));
        }
        if edge_set(g).contains(p) {
            let q = (p.0 as usize, p.1 as usize);
            assert(keep(q.0 as int, q.1 as int));
            assert(s.contains(q));
            let k = choose|k: int| 0 <= k < s.len() && s[k] == q;
            assert(t[k] == p);
        }
    }
    assert(t.to_set() =~= edge_set(g));
}

/// The moves open on a graph are exactly the legal ones.
pub proof fn lemma_legal_moves(g: Graph, size_terminal: nat)
    requires
        is_square(g),
        g.len() <= i64::MAX,
        g.len() <= usize::MAX,
    ensures
        forall|k: int|
            0 <= k < legal_moves(g, size_terminal).len() ==> is_legal(
                g,
                size_terminal,
                #[trigger] legal_moves(g, size_terminal)[k],
            ),
        forall|m: Move|
            is_legal(g, size_terminal, m) ==> legal_moves(g, size_terminal).contains(m),
{
    let n = g.len() as int;
    let keep = keeps(g, Some(false));
    lemma_pairs_below(n, n, keep);
    let free = non_edges(g);
    let em = edge_moves(g);
    let vm = vertex_moves(g.len());
    let lm = legal_moves(g, size_terminal);
    assert forall|k: int| 0 <= k < lm.len() implies is_legal(g, size_terminal, #[trigger] lm[k]) by {
        if g.len() < size_terminal {
            if k < vm.len() {
                assert(lm[k] == vm[k]);
            } else {
                assert(lm[k] == em[k - vm.len()]);
                let p = free[k - vm.len()];
                assert(keep(p.0 as int, p.1 as int));
            }
        } else {
            let p = free[k];
            assert(keep(p.0 as int, p.1 as int));
        }
    }
    assert forall|m: Move| is_legal(g, size_terminal, m) implies lm.contains(m) by {
        if m.to == -1 {
            assert(vm[m.from as int] == m);
            assert(lm[m.from as int] == m);
        } else {
            assert(keep(m.from as int, m.to as int));
            assert(free.contains((m.from, m.to as usize)));
            let t = choose|t: int| 0 <= t < free.len() && free[t] == (m.from, m.to as usize);
            assert(em[t] == m);
            if g.len() < size_terminal {
                assert(lm[vm.len() + t] == m);
            } else {
                assert(lm[t] == m);
            }
        }
    }
}

/// No move is open twice: the moves open on a graph are all different.
pub proof fn lemma_legal_moves_distinct(g: Graph, size_terminal: nat)
    requires
        is_square(g),
        g.len() <= i64::MAX,
        g.len() <= usize::MAX,
    ensures
        legal_moves(g, size_terminal).no_duplicates(),
{
    let n = g.len() as int;
    let keep = keeps(g, Some(false));
    lemma_pairs_below(n, n, keep);
    let free = non_edges(g);
    let em = edge_moves(g);
    let vm = vertex_moves(g.len());
    let lm = legal_moves(g, size_terminal);
    assert forall|i: int, j: int| 0 <= i < em.len() && 0 <= j < em.len() && i != j implies em[i]
        != em[j] by {
        let p = if i < j {
            free[i]
        } else {
            free[j]
        };
        let q = if i < j {
            free[j]
        } else {
            free[i]
        };
        assert(p.0 < q.0 || (p.0 == q.0 && p.1 < q.1));
    }
    assert forall|i: int, j: int| 0 <= i < lm.len() && 0 <= j < lm.len() && i != j implies lm[i]
        != lm[j] by {
        if g.len() < size_terminal {
            let a = vm.len() as int;
            if i < a && j < a {
                assert(lm[i] == vm[i] && lm[j] == vm[j]);
            } else if i >= a && j >= a {
                assert(lm[i] == em[i - a] && lm[j] == em[j - a]);
            } else if i < a {
                assert(lm[i] == vm[i] && lm[j] == em[j - a]);
                let q = free[j - a];
                assert(q.1 < n);
            } else {
                assert(lm[j] == vm[j] && lm[i] == em[i - a]);
                let q = free[i - a];
                assert(q.1 < n);
            }
        }
    }
}

} // verus!
