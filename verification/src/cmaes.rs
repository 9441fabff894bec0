//! The evolution strategy: parents are encoded as bit vectors, children come
//! back as bit vectors, and each generation keeps the best of both.

use vstd::prelude::*;
use crate::bfs::WS;
use crate::builders::{from_edges, joins, lemma_with_edges, names, with_edges};
use crate::chance::shuffled_pairs;
use crate::graph::{all_pairs, empty_graph, is_simple, lemma_empty_graph, Graph, Move};
use crate::harness::{verdict_of, Incumbent, IncumbentView, Verdict};
use crate::score::Score;
use crate::state::State;

verus! {

/// A row of an adjacency matrix as bits.
pub open spec fn bits_of(row: Seq<bool>) -> Seq<u8> {
    Seq::new(
        row.len(),
        |j: int|
            if row[j] {
                1u8
            } else {
                0u8
            },
    )
}

/// The first `r` rows of `g` as bits, one row after the other.
pub open spec fn flatten(g: Graph, r: int) -> Seq<u8>
    decreases r,
{
    if r <= 0 {
        Seq::empty()
    } else {
        flatten(g, r - 1) + bits_of(g[r - 1])
    }
}

/// The row-major bit vector of the adjacency matrix of `st`.
pub fn encode(st: &State) -> (out: Vec<u8>)
    ensures
        out@ == flatten(st@.adj, st@.n_sommet() as int),
{
    let n = st.n_sommet();
    let mut out: Vec<u8> = Vec::new();
    let mut i: usize = 0;
    while i < n
        invariant
            n == st@.n_sommet(),
            st@.wf(),
            i <= n,
            out@ == flatten(st@.adj, i as int),
        decreases n - i,
    {
        let ghost head = out@;
        let ghost row = st@.adj[i as int];
        assert(row.len() == n);
        let mut j: usize = 0;
        while j < n
            invariant
                n == st@.n_sommet(),
                st@.wf(),
                i < n,
                j <= n,
                row == st@.adj[i as int],
                row.len() == n,
                out@ == head + bits_of(row).take(j as int),
            decreases n - j,
        {
            let bit: u8 = if st.has_edge(i, j) {
                1
            } else {
                0
            };
            out.push(bit);
            j += 1;
            assert(out@ =~= head + bits_of(row).take(j as int));
        }
        assert(bits_of(row).take(n as int) =~= bits_of(row));
        i += 1;
    }
    out
}

/// The encodings of `states`, in order.
pub fn assemble_encodings(states: &Vec<State>) -> (ensemble: Vec<Vec<u8>>)
    ensures
        ensemble@.len() == states@.len(),
        forall|k: int|
            0 <= k < states@.len() ==> (#[trigger] ensemble@[k])@ == flatten(
                states@[k]@.adj,
                states@[k]@.n_sommet() as int,
            ),
{
    let mut ensemble: Vec<Vec<u8>> = Vec::new();
    let mut k: usize = 0;
    while k < states.len()
        invariant
            k <= states@.len(),
            ensemble@.len() == k,
            forall|t: int|
                0 <= t < k ==> (#[trigger] ensemble@[t])@ == flatten(
                    states@[t]@.adj,
                    states@[t]@.n_sommet() as int,
                ),
        decreases states@.len() - k,
    {
        ensemble.push(encode(&states[k]));
        k += 1;
    }
    ensemble
}

/// The pairs of a labelled list whose label is `1`, in order.
pub open spec fn ones(child: Seq<(u8, (usize, usize))>) -> Seq<(usize, usize)>
    decreases child.len(),
{
    if child.len() == 0 {
        Seq::empty()
    } else {
        let rest = ones(child.drop_last());
        if child.last().0 == 1 {
            rest.push(child.last().1)
        } else {
            rest
        }
    }
}

/// A list without a label `1` names no pair.
pub proof fn lemma_ones_of_zeros(child: Seq<(u8, (usize, usize))>)
    requires
        forall|k: int| 0 <= k < child.len() ==> (#[trigger] child[k]).0 == 0,
    ensures
        ones(child) == Seq::<(usize, usize)>::empty(),
    decreases child.len(),
{
    if child.len() > 0 {
        lemma_ones_of_zeros(child.drop_last());
    }
}

/// The state on `size` vertices that joins the pairs labelled `1`; a pair
/// that names no edge of the graph is passed over. The state has vertex cap 1
/// and conjecture 1, no move and no score.
pub fn construct_state(child: &Vec<(u8, (usize, usize))>, size: usize) -> (s: State)
    ensures
        s@.adj == with_edges(empty_graph(size as nat), ones(child@)),
        s@.n_sommet() == size,
        s@.size_terminal == 1,
        s@.conj == 1,
        s@.seq == Seq::<Move>::empty(),
{
    let mut pairs: Vec<(usize, usize)> = Vec::new();
    let mut k: usize = 0;
    assert(child@.take(0) =~= Seq::<(u8, (usize, usize))>::empty());
    while k < child.len()
        invariant
            k <= child@.len(),
            pairs@ == ones(child@.take(k as int)),
        decreases child@.len() - k,
    {
        proof {
            assert(child@.take(k + 1).drop_last() =~= child@.take(k as int));
            assert(child@.take(k + 1).last() == child@[k as int]);
        }
        let c = child[k];
        if c.0 == 1 {
            pairs.push(c.1);
        }
        k += 1;
    }
    assert(child@.take(k as int) =~= child@);
    from_edges(size, 1, 1, &pairs)
}

/// The cells of the first `r` rows of a square of side `size`, row by row.
pub open spec fn cells(size: nat, r: int) -> Seq<(usize, usize)>
    decreases r,
{
    if r <= 0 {
        Seq::empty()
    } else {
        cells(size, r - 1) + Seq::new(size, |j: int| ((r - 1) as usize, j as usize))
    }
}

/// The first `r` rows of a square of side `size` have `r * size` cells.
pub proof fn lemma_cells_len(size: nat, r: int)
    requires
        0 <= r,
    ensures
        cells(size, r).len() == r * size,
    decreases r,
{
    if r > 0 {
        lemma_cells_len(size, r - 1);
        assert(r * size == (r - 1) * size + size) by (nonlinear_arith);
        assert(cells(size, r).len() == cells(size, r - 1).len() + size);
    } else {
        assert(r * size == 0) by (nonlinear_arith)
            requires
                r == 0,
        ;
    }
}

/// The bits of a vector, each labelled with its cell in a square of side
/// `size`.
pub open spec fn labelled(bits: Seq<u8>, size: nat) -> Seq<(u8, (usize, usize))> {
    Seq::new(bits.len(), |k: int| (bits[k], cells(size, size as int)[k]))
}

/// Is `len` the number of cells of a square of side `size`?
pub open spec fn is_side(size: nat, len: nat) -> bool {
    size * size == len
}

/// The state that a bit vector stands for, read as the row-major adjacency
/// matrix of a square: two distinct vertices are joined where either of their
/// two cells holds `1`. `None` where the length of the vector is no square.
pub fn create_child(binary_child: &Vec<u8>) -> (r: Option<State>)
    ensures
        r.is_some() <==> exists|size: nat| is_side(size, binary_child@.len()),
        r.is_some() ==> {
            let s = r.unwrap();
            &&& s@.n_sommet() * s@.n_sommet() == binary_child@.len()
            &&& s@.adj == with_edges(
                empty_graph(s@.n_sommet()),
                ones(labelled(binary_child@, s@.n_sommet())),
            )
            &&& s@.size_terminal == 1
            &&& s@.conj == 1
            &&& s@.seq == Seq::<Move>::empty()
        },
{
    let len = binary_child.len();
    let mut size: usize = 0;
    let mut square: u128 = 0;
    while square < len as u128
        invariant
            size <= len,
            square == size * size,
            len == binary_child@.len(),
            forall|t: nat| t < size ==> !#[trigger] is_side(t, len as nat),
        decreases len - size,
    {
        assert(size < len) by (nonlinear_arith)
            requires
                size * size < len,
                size <= len,
        ;
        assert((size + 1) * (size + 1) == size * size + 2 * size + 1) by (nonlinear_arith);
        square = square + 2 * (size as u128) + 1;
        size += 1;
    }
    if square != len as u128 {
        proof {
            assert forall|t: nat| !#[trigger] is_side(t, len as nat) by {
                if t >= size {
                    assert(t * t >= size * size) by (nonlinear_arith)
                        requires
                            t >= size,
                    ;
                }
            }
        }
        return None;
    }
    let ghost all = cells(size as nat, size as int);
    proof {
        lemma_cells_len(size as nat, size as int);
    }
    let mut child: Vec<(u8, (usize, usize))> = Vec::new();
    let mut i: usize = 0;
    while i < size
        invariant
            i <= size,
            size * size == len,
            len == binary_child@.len(),
            all == cells(size as nat, size as int),
            all.len() == len,
            child@.len() == i * size,
            child@ == labelled(binary_child@, size as nat).take(i * size),
        decreases size - i,
    {
        let mut j: usize = 0;
        proof {
            lemma_cells_len(size as nat, i as int);
            assert(i * size + size <= size * size) by (nonlinear_arith)
                requires
                    i < size,
            ;
            assert((i + 1) * size == i * size + size) by (nonlinear_arith);
        }
        while j < size
            invariant
                i < size,
                j <= size,
                size * size == len,
                len == binary_child@.len(),
                all == cells(size as nat, size as int),
                all.len() == len,
                i * size + size <= size * size,
                child@.len() == i * size + j,
                child@ == labelled(binary_child@, size as nat).take(i * size + j),
            decreases size - j,
        {
            let k = child.len();
            proof {
                lemma_cells_row(size as nat, size as int, i as int, j as int);
            }
            child.push((binary_child[k], (i, j)));
            j += 1;
            assert(child@ =~= labelled(binary_child@, size as nat).take(i * size + j));
        }
        i += 1;
    }
    assert(child@ =~= labelled(binary_child@, size as nat));
    let s = construct_state(&child, size);
    assert(is_side(size as nat, binary_child@.len()));
    Some(s)
}

/// The cell at column `c` of row `i` stands at index `i * size + c`.
pub proof fn lemma_cells_row(size: nat, r: int, i: int, c: int)
    requires
        0 <= i < r,
        0 <= c < size,
    ensures
        i * size + c < cells(size, r).len(),
        cells(size, r)[i * size + c] == (i as usize, c as usize),
    decreases r,
{
    lemma_cells_len(size, r);
    lemma_cells_len(size, r - 1);
    assert(i * size + size <= (r - 1) * size + size) by (nonlinear_arith)
        requires
            i <= r - 1,
            0 <= size,
    ;
    assert(r * size == (r - 1) * size + size) by (nonlinear_arith);
    if i < r - 1 {
        lemma_cells_row(size, r - 1, i, c);
    } else {
    }
}

/// Every index below `r * size` is that of one cell: the cell at column `c`
/// of row `i` with `i * size + c` the index.
pub proof fn lemma_cells_index(size: nat, r: int, k: int)
    requires
        0 <= r <= usize::MAX,
        size <= usize::MAX,
        0 <= k < cells(size, r).len(),
    ensures
        ({
            let cell = cells(size, r)[k];
            cell.0 < r && cell.1 < size && k == cell.0 * size + cell.1
        }),
    decreases r,
{
    lemma_cells_len(size, r);
    if r > 0 {
        lemma_cells_len(size, r - 1);
        if k < cells(size, r - 1).len() {
            lemma_cells_index(size, r - 1, k);
        }
    }
}

/// The bit of the encoding at the cell of row `i` and column `j`.
pub proof fn lemma_flatten(g: Graph, r: int, i: int, j: int)
    requires
        crate::graph::is_square(g),
        0 <= i < r <= g.len(),
        0 <= j < g.len(),
    ensures
        flatten(g, r).len() == r * g.len(),
        i * g.len() + j < flatten(g, r).len(),
        flatten(g, r)[i * g.len() + j] == if g[i][j] {
            1u8
        } else {
            0u8
        },
    decreases r,
{
    let n = g.len();
    lemma_flatten_len(g, r);
    lemma_flatten_len(g, r - 1);
    assert(i * n + n <= (r - 1) * n + n) by (nonlinear_arith)
        requires
            i <= r - 1,
            0 <= n,
    ;
    assert(r * n == (r - 1) * n + n) by (nonlinear_arith);
    if i < r - 1 {
        lemma_flatten(g, r - 1, i, j);
    } else {
        assert(g[i].len() == n);
    }
}

/// The first `r` rows of a square matrix encode to `r` times as many bits as
/// the matrix has columns.
pub proof fn lemma_flatten_len(g: Graph, r: int)
    requires
        crate::graph::is_square(g),
        0 <= r <= g.len(),
    ensures
        flatten(g, r).len() == r * g.len(),
    decreases r,
{
    if r > 0 {
        lemma_flatten_len(g, r - 1);
        assert(g[r - 1].len() == g.len());
        assert(r * g.len() == (r - 1) * g.len() + g.len()) by (nonlinear_arith);
    } else {
        assert(r * g.len() == 0) by (nonlinear_arith)
            requires
                r == 0,
        ;
    }
}

/// The pairs that a labelled list names: those that stand in it with the
/// label `1`.
pub proof fn lemma_ones(child: Seq<(u8, (usize, usize))>, a: int, b: int)
    ensures
        names(ones(child), a, b) <==> exists|k: int|
            0 <= k < child.len() && (#[trigger] child[k]).0 == 1 && joins(child[k].1, a, b),
    decreases child.len(),
{
    if child.len() > 0 {
        let rest = child.drop_last();
        let last = child.last();
        lemma_ones(rest, a, b);
        let picked = ones(child);
        let before = ones(rest);
        if names(picked, a, b) {
            let t = choose|t: int| 0 <= t < picked.len() && joins(#[trigger] picked[t], a, b);
            if last.0 == 1 && t == picked.len() - 1 {
                assert(child[child.len() - 1].0 == 1 && joins(child[child.len() - 1].1, a, b));
            } else {
                assert(before[t] == picked[t]);
                assert(names(before, a, b));
                let k = choose|k: int|
                    0 <= k < rest.len() && (#[trigger] rest[k]).0 == 1 && joins(rest[k].1, a, b);
                assert(child[k] == rest[k]);
            }
        }
        if exists|k: int|
            0 <= k < child.len() && (#[trigger] child[k]).0 == 1 && joins(child[k].1, a, b) {
            let k = choose|k: int|
                0 <= k < child.len() && (#[trigger] child[k]).0 == 1 && joins(child[k].1, a, b);
            if k < rest.len() {
                assert(rest[k] == child[k]);
                assert(names(before, a, b));
                let t = choose|t: int| 0 <= t < before.len() && joins(#[trigger] before[t], a, b);
                assert(picked[t] == before[t]);
            } else {
                assert(picked[picked.len() - 1] == last.1);
            }
        }
    }
}

/// Reading back the encoding of a simple graph gives the graph.
pub proof fn lemma_decode_encode(g: Graph)
    requires
        is_simple(g),
        g.len() <= usize::MAX,
    ensures
        flatten(g, g.len() as int).len() == g.len() * g.len(),
        with_edges(
            empty_graph(g.len()),
            ones(labelled(flatten(g, g.len() as int), g.len())),
        ) == g,
{
    let n = g.len();
    let bits = flatten(g, n as int);
    let child = labelled(bits, n);
    let h = with_edges(empty_graph(n), ones(child));
    lemma_flatten_len(g, n as int);
    lemma_cells_len(n, n as int);
    lemma_empty_graph(n);
    lemma_with_edges(empty_graph(n), ones(child));
    assert forall|a: int| 0 <= a < n implies #[trigger] h[a] =~= g[a] by {
        assert(h[a].len() == h.len());
        assert(g[a].len() == n);
        assert forall|b: int| 0 <= b < n implies h[a][b] == g[a][b] by {
            lemma_ones(child, a, b);
            if g[a][b] {
                lemma_flatten(g, n as int, a, b);
                lemma_cells_row(n, n as int, a, b);
                let k = a * n + b;
                assert(child[k].0 == 1 && joins(child[k].1, a, b));
            }
            if h[a][b] {
                let k = choose|k: int|
                    0 <= k < child.len() && (#[trigger] child[k]).0 == 1 && joins(child[k].1, a, b);
                lemma_cells_index(n, n as int, k);
                let cell = cells(n, n as int)[k];
                lemma_flatten(g, n as int, cell.0 as int, cell.1 as int);
                assert(g[cell.0 as int][cell.1 as int]);
            }
        }
    }
    assert(h =~= g);
}

/// The index of the first heaviest node among the first `k` nodes of `l`.
pub open spec fn first_max(l: Seq<WS>, k: int) -> int
    decreases k,
{
    if k <= 1 {
        0
    } else {
        let i = first_max(l, k - 1);
        if l[k - 1].w.key > l[i].w.key {
            k - 1
        } else {
            i
        }
    }
}

/// The `keep` heaviest nodes of `l`, heaviest first; among nodes of one weight
/// the one that stands first in `l` comes first.
pub open spec fn selection(l: Seq<WS>, keep: nat) -> Seq<WS>
    decreases keep,
{
    if keep == 0 || l.len() == 0 {
        Seq::empty()
    } else {
        let i = first_max(l, l.len() as int);
        seq![l[i]] + selection(l.remove(i), (keep - 1) as nat)
    }
}

/// The first heaviest node is a node, and no node outweighs it.
pub proof fn lemma_first_max(l: Seq<WS>, k: int)
    requires
        1 <= k <= l.len(),
    ensures
        0 <= first_max(l, k) < k,
        forall|j: int| 0 <= j < k ==> (#[trigger] l[j]).w.key <= l[first_max(l, k)].w.key,
        forall|j: int| 0 <= j < first_max(l, k) ==> (#[trigger] l[j]).w.key < l[first_max(l, k)].w.key,
    decreases k,
{
    if k > 1 {
        lemma_first_max(l, k - 1);
    }
}

/// A selection holds at most `keep` nodes, each a node of the list, in
/// non-increasing order of weight.
pub proof fn lemma_selection(l: Seq<WS>, keep: nat)
    ensures
        selection(l, keep).len() == if keep <= l.len() {
            keep
        } else {
            l.len()
        },
        forall|k: int|
            0 <= k < selection(l, keep).len() ==> l.contains(#[trigger] selection(l, keep)[k]),
        forall|a: int, b: int|
            0 <= a <= b < selection(l, keep).len() ==> selection(l, keep)[a].w.key >= selection(
                l,
                keep,
            )[b].w.key,
    decreases keep,
{
    if keep == 0 || l.len() == 0 {
    } else {
        let i = first_max(l, l.len() as int);
        lemma_first_max(l, l.len() as int);
        let rest = l.remove(i);
        let tail = selection(rest, (keep - 1) as nat);
        let all = selection(l, keep);
        lemma_selection(rest, (keep - 1) as nat);
        assert forall|k: int| 0 <= k < all.len() implies l.contains(#[trigger] all[k]) by {
            if k == 0 {
                assert(l[i] == all[0]);
            } else {
                assert(all[k] == tail[k - 1]);
                assert(rest.contains(tail[k - 1]));
                let t = choose|t: int| 0 <= t < rest.len() && rest[t] == tail[k - 1];
                if t < i {
                    assert(l[t] == rest[t]);
                } else {
                    assert(l[t + 1] == rest[t]);
                }
            }
        }
        assert forall|a: int, b: int| 0 <= a <= b < all.len() implies all[a].w.key
            >= all[b].w.key by {
            if a == 0 && b > 0 {
                assert(all[b] == tail[b - 1]);
                assert(rest.contains(tail[b - 1]));
                let t = choose|t: int| 0 <= t < rest.len() && rest[t] == tail[b - 1];
                if t < i {
                    assert(l[t] == rest[t]);
                } else {
                    assert(l[t + 1] == rest[t]);
                }
            } else if a > 0 {
                assert(all[a] == tail[a - 1]);
                assert(all[b] == tail[b - 1]);
            }
        }
    }
}

/// Keeps the `to_keep` heaviest candidates, heaviest first; among candidates
/// of one weight the one that stands first comes first.
pub fn select_candidates(candidates: Vec<WS>, to_keep: usize) -> (best_states: Vec<WS>)
    ensures
        best_states@ == selection(candidates@, to_keep as nat),
{
    let mut candidates = candidates;
    let ghost all = candidates@;
    let mut out: Vec<WS> = Vec::new();
    assert(out@ + selection(candidates@, to_keep as nat) =~= selection(all, to_keep as nat));
    while out.len() < to_keep && candidates.len() > 0
        invariant
            out@.len() <= to_keep,
            out@ + selection(candidates@, (to_keep - out@.len()) as nat) == selection(
                all,
                to_keep as nat,
            ),
        decreases candidates@.len(),
    {
        let mut i: usize = 0;
        let mut k: usize = 1;
        while k < candidates.len()
            invariant
                1 <= k <= candidates@.len(),
                i < k,
                i == first_max(candidates@, k as int),
            decreases candidates@.len() - k,
        {
            if candidates[k].w.key > candidates[i].w.key {
                i = k;
            }
            k += 1;
        }
        let ghost before = candidates@;
        let ghost head = out@;
        let node = candidates.remove(i);
        out.push(node);
        assert(out@ + selection(candidates@, (to_keep - out@.len()) as nat) =~= head + selection(
            before,
            (to_keep - head.len()) as nat,
        ));
    }
    proof {
        assert(selection(candidates@, (to_keep - out@.len()) as nat) =~= Seq::<WS>::empty());
        assert(out@ + Seq::<WS>::empty() =~= out@);
    }
    out
}

/// All unordered pairs of vertices below `n`, in a random order, each
/// labelled `0`.
pub fn create_random_edges(n: usize) -> (list: Vec<(u8, (usize, usize))>)
    ensures
        list@.len() == all_pairs(n as nat).len(),
        forall|k: int| 0 <= k < list@.len() ==> (#[trigger] list@[k]).0 == 0,
        Seq::new(list@.len(), |k: int| list@[k].1).to_multiset() == all_pairs(
            n as nat,
        ).to_multiset(),
{
    let pairs = shuffled_pairs(n);
    let mut list: Vec<(u8, (usize, usize))> = Vec::new();
    let mut k: usize = 0;
    while k < pairs.len()
        invariant
            k <= pairs@.len(),
            list@.len() == k,
            forall|t: int| 0 <= t < k ==> (#[trigger] list@[t]) == (0u8, pairs@[t]),
        decreases pairs@.len() - k,
    {
        list.push((0, pairs[k]));
        k += 1;
    }
    assert(Seq::new(list@.len(), |k: int| list@[k].1) =~= pairs@);
    list
}

/// Fills `states` up to `lambda` states with graphs on `n` vertices built from
/// random edge lists. The lists label no pair `1`, so each state added is the
/// graph without edges.
pub fn add_parents_small_curri(lambda: usize, n: usize, states: Vec<State>) -> (out: Vec<State>)
    ensures
        out@.len() == if states@.len() <= lambda {
            lambda as nat
        } else {
            states@.len()
        },
        out@.take(states@.len() as int) == states@,
        forall|k: int|
            states@.len() <= k < out@.len() ==> {
                &&& (#[trigger] out@[k])@.adj == empty_graph(n as nat)
                &&& out@[k]@.size_terminal == 1
                &&& out@[k]@.conj == 1
                &&& out@[k]@.seq == Seq::<Move>::empty()
            },
{
    let mut out = states;
    let ghost given = out@;
    assert(out@.take(given.len() as int) =~= given);
    while out.len() < lambda
        invariant
            given.len() <= out@.len(),
            out@.len() <= lambda || out@.len() == given.len(),
            out@.take(given.len() as int) == given,
            forall|k: int|
                given.len() <= k < out@.len() ==> {
                    &&& (#[trigger] out@[k])@.adj == empty_graph(n as nat)
                    &&& out@[k]@.size_terminal == 1
                    &&& out@[k]@.conj == 1
                    &&& out@[k]@.seq == Seq::<Move>::empty()
                },
        decreases lambda - out@.len(),
    {
        let list = create_random_edges(n);
        proof {
            lemma_ones_of_zeros(list@);
        }
        let st = construct_state(&list, n);
        out.push(st);
        assert(out@.take(given.len() as int) =~= given);
    }
    out
}

/// An evolution in progress.
pub struct Cmaes {
    parents: Vec<State>,
    incumbent: Incumbent,
    generation: i32,
    lambda: usize,
    fct: usize,
}

impl Cmaes {
    /// The parents of the generation under way.
    pub closed spec fn parents(&self) -> Seq<State> {
        self.parents@
    }

    /// The best state seen so far.
    pub closed spec fn incumbent(&self) -> IncumbentView {
        self.incumbent@
    }

    /// The number of generations begun.
    pub closed spec fn generation(&self) -> i32 {
        self.generation
    }

    /// The number of parents that a generation keeps.
    pub closed spec fn lambda(&self) -> usize {
        self.lambda
    }

    /// The conjecture that scores the graphs.
    pub closed spec fn fct(&self) -> usize {
        self.fct
    }

    /// The child that a bit vector stands for, to be scored by the conjecture
    /// of the evolution; `None` where the length of the vector is no square.
    pub fn decode(&self, binary_child: &Vec<u8>) -> (r: Option<State>)
        ensures
            r.is_some() <==> exists|size: nat| is_side(size, binary_child@.len()),
            r.is_some() ==> {
                let s = r.unwrap();
                &&& s@.n_sommet() * s@.n_sommet() == binary_child@.len()
                &&& s@.adj == with_edges(
                    empty_graph(s@.n_sommet()),
                    ones(labelled(binary_child@, s@.n_sommet())),
                )
                &&& s@.size_terminal == 1
                &&& s@.conj == self.fct()
                &&& s@.seq == Seq::<Move>::empty()
            },
    {
        match create_child(binary_child) {
            Some(child) => {
                let mut child = child;
                child.set_conj(self.fct);
                Some(child)
            },
            None => None,
        }
    }

    /// The parents of the generation under way.
    pub fn current_parents(&self) -> (p: &Vec<State>)
        ensures
            p@ == self.parents(),
    {
        &self.parents
    }

    /// The best state seen so far.
    pub fn best_state(&self) -> (s: &State)
        ensures
            s@ == self.incumbent().best_state,
    {
        self.incumbent.best_state()
    }

    /// Begins the next generation, if fewer than `restart` were begun.
    pub fn next_generation(&mut self, restart: i32) -> (b: bool)
        ensures
            b == (old(self).generation() < restart),
            final(self).generation() == if b {
                old(self).generation() + 1
            } else {
                old(self).generation() as int
            },
            final(self).parents() == old(self).parents(),
            final(self).incumbent() == old(self).incumbent(),
            final(self).lambda() == old(self).lambda(),
            final(self).fct() == old(self).fct(),
    {
        if self.generation < restart {
            self.generation = self.generation + 1;
            true
        } else {
            false
        }
    }

    /// Offers a child with the score it was given.
    pub fn offer(&mut self, child: &State, score: Score) -> (v: Verdict)
        ensures
            v == verdict_of(old(self).incumbent().best_score, score),
            final(self).incumbent() == old(self).incumbent().offer(child@, score),
            final(self).parents() == old(self).parents(),
            final(self).generation() == old(self).generation(),
            final(self).lambda() == old(self).lambda(),
            final(self).fct() == old(self).fct(),
    {
        self.incumbent.offer(child, score)
    }

    /// Ends a generation: of `pool`, the parents and the children with their
    /// scores, the best become the parents of the next.
    pub fn select(&mut self, pool: Vec<WS>)
        ensures
            final(self).parents().len() == selection(pool@, old(self).lambda() as nat).len(),
            forall|k: int|
                0 <= k < final(self).parents().len() ==> (#[trigger] final(self).parents()[k])@
                    == selection(pool@, old(self).lambda() as nat)[k].s@,
            final(self).incumbent() == old(self).incumbent(),
            final(self).generation() == old(self).generation(),
            final(self).lambda() == old(self).lambda(),
            final(self).fct() == old(self).fct(),
    {
        let ghost all = pool@;
        let kept = select_candidates(pool, self.lambda);
        proof {
            lemma_selection(all, self.lambda as nat);
        }
        let mut parents: Vec<State> = Vec::new();
        let mut k: usize = 0;
        while k < kept.len()
            invariant
                k <= kept@.len(),
                kept@ == selection(all, self.lambda as nat),
                forall|t: int| 0 <= t < kept@.len() ==> all.contains(#[trigger] kept@[t]),
                parents@.len() == k,
                forall|t: int|
                    0 <= t < k ==> (#[trigger] parents@[t])@ == kept@[t].s@,
            decreases kept@.len() - k,
        {
            parents.push(kept[k].s.clone());
            k += 1;
        }
        self.parents = parents;
    }
}

/// Begins an evolution for conjecture `fct` on graphs of `size_terminal`
/// vertices, with `lambda` parents. The best state so far is the single
/// vertex, whose score under the conjecture is `score`.
#[allow(non_snake_case)]
pub fn launch_CMAES(lambda: usize, fct: usize, size_terminal: usize, score: Score) -> (run: Cmaes)
    ensures
        run.lambda() == lambda,
        run.fct() == fct,
        run.generation() == 0,
        run.incumbent().best_score == score,
        run.incumbent().best_state.adj == empty_graph(1),
        run.incumbent().best_state.conj == fct,
        run.parents().len() == lambda,
        forall|k: int|
            0 <= k < lambda ==> {
                &&& (#[trigger] run.parents()[k])@.adj == empty_graph(size_terminal as nat)
                &&& run.parents()[k]@.conj == fct
            },
{
    let mut best_state = State::new();
    best_state.set_conj(fct);
    let blank = add_parents_small_curri(lambda, size_terminal, Vec::new());
    let mut parents: Vec<State> = Vec::new();
    let mut k: usize = 0;
    while k < blank.len()
        invariant
            blank@.len() == lambda,
            k <= blank@.len(),
            parents@.len() == k,
            forall|t: int|
                0 <= t < lambda ==> (#[trigger] blank@[t])@.adj == empty_graph(
                    size_terminal as nat,
                ),
            forall|t: int|
                0 <= t < k ==> {
                    &&& (#[trigger] parents@[t])@.adj == empty_graph(size_terminal as nat)
                    &&& parents@[t]@.conj == fct
                },
        decreases blank@.len() - k,
    {
        let mut parent = blank[k].clone();
        parent.set_conj(fct);
        parents.push(parent);
        k += 1;
    }
    Cmaes {
        parents,
        incumbent: Incumbent::with_score(best_state, score),
        generation: 0,
        lambda,
        fct,
    }
}

} // verus!
