//! The integers that every score is computed from: degrees, the sums of the
//! degrees of neighbours, and the Laplacian matrix.

use vstd::prelude::*;
use vstd::relations::injective_on;
use vstd::set_lib::*;
use crate::graph::{edge_count, edge_set, is_simple, is_square, lemma_edge_count_bound, Graph};
use crate::state::State;

verus! {

/// The number of set entries among the first `k` of `row`.
pub open spec fn count_set(row: Seq<bool>, k: int) -> nat
    decreases k,
{
    if k <= 0 {
        0
    } else {
        count_set(row, k - 1) + if row[k - 1] {
            1nat
        } else {
            0nat
        }
    }
}

/// The degree of vertex `i`: the number of set entries of its row.
pub open spec fn degree(g: Graph, i: int) -> nat {
    count_set(g[i], g[i].len() as int)
}

/// The sum of the degrees of the neighbours of `i` among the first `k`
/// vertices.
pub open spec fn neighbor_sum(g: Graph, i: int, k: int) -> nat
    decreases k,
{
    if k <= 0 {
        0
    } else {
        neighbor_sum(g, i, k - 1) + if g[i][k - 1] {
            degree(g, k - 1)
        } else {
            0nat
        }
    }
}

/// The entry of the Laplacian matrix of `g` at row `i` and column `j`: the
/// degree on the diagonal, `-1` where an edge joins the two, `0` elsewhere.
pub open spec fn laplacian(g: Graph, i: int, j: int) -> int {
    if i == j {
        degree(g, i) - if g[i][j] {
            1int
        } else {
            0int
        }
    } else if g[i][j] {
        -1
    } else {
        0
    }
}

/// No more entries are set than there are.
pub proof fn lemma_count_set(row: Seq<bool>, k: int)
    requires
        0 <= k,
    ensures
        count_set(row, k) <= k,
    decreases k,
{
    if k > 0 {
        lemma_count_set(row, k - 1);
    }
}

/// The neighbours among the first `k` vertices have degrees of at most `m`
/// each, where no row is longer than `m`.
pub proof fn lemma_neighbor_sum(g: Graph, i: int, k: int, m: nat)
    requires
        0 <= k <= g.len(),
        forall|t: int| 0 <= t < g.len() ==> (#[trigger] g[t]).len() <= m,
    ensures
        neighbor_sum(g, i, k) <= k * m,
    decreases k,
{
    if k > 0 {
        lemma_neighbor_sum(g, i, k - 1, m);
        lemma_count_set(g[k - 1], g[k - 1].len() as int);
        assert(k * m == (k - 1) * m + m) by (nonlinear_arith);
    } else {
        assert(k * m == 0) by (nonlinear_arith)
            requires
                k == 0,
        ;
    }
}

/// The sum of the degrees of the first `r` vertices.
pub open spec fn total_degree(g: Graph, r: int) -> nat
    decreases r,
{
    if r <= 0 {
        0
    } else {
        total_degree(g, r - 1) + degree(g, r - 1)
    }
}

/// The set entries among the first `k` of row `i`, as pairs.
pub open spec fn row_ones(g: Graph, i: int, k: int) -> Set<(int, int)> {
    Set::new(|p: (int, int)| p.0 == i && 0 <= p.1 < k && g[i][p.1])
}

/// The set entries of the first `r` rows, as pairs.
pub open spec fn ones_below(g: Graph, r: int) -> Set<(int, int)> {
    Set::new(|p: (int, int)| 0 <= p.0 < r && 0 <= p.1 < g.len() && g[p.0][p.1])
}

/// The set entries below the diagonal, as pairs.
pub open spec fn lower_set(g: Graph) -> Set<(int, int)> {
    Set::new(|p: (int, int)| 0 <= p.1 < p.0 < g.len() && g[p.0][p.1])
}

/// A row has as many set entries as its count says.
pub proof fn lemma_row_ones(g: Graph, i: int, k: int)
    requires
        0 <= k,
    ensures
        row_ones(g, i, k).finite(),
        row_ones(g, i, k).len() == count_set(g[i], k),
    decreases k,
{
    if k <= 0 {
        assert(row_ones(g, i, k) =~= Set::empty());
    } else {
        lemma_row_ones(g, i, k - 1);
        if g[i][k - 1] {
            assert(row_ones(g, i, k) =~= row_ones(g, i, k - 1).insert((i, k - 1)));
        } else {
            assert(row_ones(g, i, k) =~= row_ones(g, i, k - 1));
        }
    }
}

/// The first rows of a square matrix have as many set entries as the degrees
/// of their vertices add up to.
pub proof fn lemma_ones_below(g: Graph, r: int)
    requires
        is_square(g),
        0 <= r <= g.len(),
    ensures
        ones_below(g, r).finite(),
        ones_below(g, r).len() == total_degree(g, r),
    decreases r,
{
    if r <= 0 {
        assert(ones_below(g, r) =~= Set::empty());
    } else {
        lemma_ones_below(g, r - 1);
        lemma_row_ones(g, r - 1, g.len() as int);
        assert(g[r - 1].len() == g.len());
        let head = ones_below(g, r - 1);
        let row = row_ones(g, r - 1, g.len() as int);
        assert(ones_below(g, r) =~= head + row);
        assert(head.disjoint(row));
        lemma_set_disjoint_lens(head, row);
    }
}

/// The degrees of a simple graph add up to twice the number of its edges:
/// the matrix holds two set entries for each edge.
pub proof fn lemma_degrees_count_edges_twice(g: Graph)
    requires
        is_simple(g),
    ensures
        total_degree(g, g.len() as int) == 2 * edge_count(g),
{
    let n = g.len() as int;
    let all = ones_below(g, n);
    let upper = edge_set(g);
    let lower = lower_set(g);
    let swap = |p: (int, int)| (p.1, p.0);
    lemma_ones_below(g, n);
    lemma_edge_count_bound(g);
    assert(injective_on(swap, upper)) by {
        assert forall|x: (int, int), y: (int, int)|
            upper.contains(x) && upper.contains(y) && #[trigger] swap(x) == #[trigger] swap(
                y,
            ) implies x == y by {
            assert(x.0 == y.0 && x.1 == y.1);
        }
    }
    assert(upper.map(swap) =~= lower) by {
        assert forall|p: (int, int)| upper.map(swap).contains(p) <==> lower.contains(p) by {
            if lower.contains(p) {
                assert(g[p.0].len() == g.len());
                assert(g[p.0][p.1] == g[p.1][p.0]);
                assert(upper.contains((p.1, p.0)));
                assert(p == swap((p.1, p.0)));
            }
            if upper.map(swap).contains(p) {
                let x = choose|x: (int, int)| upper.contains(x) && p == swap(x);
                assert(g[x.0][x.1] == g[x.1][x.0]);
            }
        }
    }
    lemma_map_size(upper, lower, swap);
    assert(all =~= upper + lower) by {
        assert forall|p: (int, int)| all.contains(p) <==> (upper + lower).contains(p) by {
            if all.contains(p) {
                assert(!g[p.0][p.0]);
            }
        }
    }
    assert(upper.disjoint(lower));
    lemma_set_disjoint_lens(upper, lower);
}

/// The sum of the first `k` entries of row `i` of the Laplacian matrix.
pub open spec fn laplacian_row_sum(g: Graph, i: int, k: int) -> int
    decreases k,
{
    if k <= 0 {
        0
    } else {
        laplacian_row_sum(g, i, k - 1) + laplacian(g, i, k - 1)
    }
}

/// The first `k` entries of a row of the Laplacian matrix add up to the
/// degree, once the diagonal is passed, less the set entries among them.
pub proof fn lemma_laplacian_row_sum(g: Graph, i: int, k: int)
    requires
        is_simple(g),
        0 <= i < g.len(),
        0 <= k <= g.len(),
    ensures
        laplacian_row_sum(g, i, k) == (if k > i {
            degree(g, i) as int
        } else {
            0
        }) - count_set(g[i], k),
    decreases k,
{
    if k > 0 {
        lemma_laplacian_row_sum(g, i, k - 1);
    }
}

/// The Laplacian matrix of a simple graph is symmetric, and each of its rows
/// adds up to zero.
pub proof fn lemma_laplacian(g: Graph, i: int, j: int)
    requires
        is_simple(g),
        0 <= i < g.len(),
        0 <= j < g.len(),
    ensures
        laplacian(g, i, j) == laplacian(g, j, i),
        laplacian_row_sum(g, i, g.len() as int) == 0,
{
    lemma_laplacian_row_sum(g, i, g.len() as int);
    assert(g[i].len() == g.len());
    assert(g[i][j] == g[j][i]);
}

impl State {
    /// The degree of each vertex. The degrees add up to twice the number of
    /// edges.
    pub fn degrees(&self) -> (out: Vec<usize>)
        ensures
            out@.len() == self@.n_sommet(),
            forall|i: int| 0 <= i < out@.len() ==> #[trigger] out@[i] == degree(self@.adj, i),
            total_degree(self@.adj, self@.n_sommet() as int) == 2 * self@.n_arete,
    {
        let n = self.n_sommet();
        proof {
            lemma_degrees_count_edges_twice(self@.adj);
        }
        let mut out: Vec<usize> = Vec::new();
        let mut i: usize = 0;
        while i < n
            invariant
                n == self@.n_sommet(),
                self@.wf(),
                i <= n,
                out@.len() == i,
                forall|t: int| 0 <= t < i ==> #[trigger] out@[t] == degree(self@.adj, t),
            decreases n - i,
        {
            let ghost row = self@.adj[i as int];
            assert(row.len() == n);
            let mut d: usize = 0;
            let mut j: usize = 0;
            while j < n
                invariant
                    n == self@.n_sommet(),
                    self@.wf(),
                    i < n,
                    j <= n,
                    row == self@.adj[i as int],
                    d == count_set(row, j as int),
                    d <= j,
                decreases n - j,
            {
                if self.has_edge(i, j) {
                    d = d + 1;
                }
                j += 1;
            }
            out.push(d);
            i += 1;
        }
        out
    }

    /// The degree matrix: the degrees on the diagonal, zero elsewhere.
    pub fn degree_matrix(&self) -> (out: Vec<Vec<usize>>)
        ensures
            out@.len() == self@.n_sommet(),
            forall|i: int|
                0 <= i < out@.len() ==> (#[trigger] out@[i])@.len() == self@.n_sommet(),
            forall|i: int, j: int|
                0 <= i < out@.len() && 0 <= j < out@.len() ==> #[trigger] out@[i]@[j] == if i == j {
                    degree(self@.adj, i)
                } else {
                    0
                },
    {
        let n = self.n_sommet();
        let degrees = self.degrees();
        let mut out: Vec<Vec<usize>> = Vec::new();
        let mut i: usize = 0;
        while i < n
            invariant
                n == self@.n_sommet(),
                degrees@.len() == n,
                forall|t: int| 0 <= t < n ==> #[trigger] degrees@[t] == degree(self@.adj, t),
                i <= n,
                out@.len() == i,
                forall|t: int| 0 <= t < i ==> (#[trigger] out@[t])@.len() == n,
                forall|t: int, j: int|
                    0 <= t < i && 0 <= j < n ==> #[trigger] out@[t]@[j] == if t == j {
                        degree(self@.adj, t)
                    } else {
                        0
                    },
            decreases n - i,
        {
            let mut row: Vec<usize> = Vec::new();
            let mut j: usize = 0;
            while j < n
                invariant
                    n == self@.n_sommet(),
                    degrees@.len() == n,
                    degrees@[i as int] == degree(self@.adj, i as int),
                    i < n,
                    j <= n,
                    row@.len() == j,
                    forall|c: int|
                        0 <= c < j ==> #[trigger] row@[c] == if i == c {
                            degree(self@.adj, i as int)
                        } else {
                            0
                        },
                decreases n - j,
            {
                if i == j {
                    row.push(degrees[i]);
                } else {
                    row.push(0);
                }
                j += 1;
            }
            out.push(row);
            i += 1;
        }
        out
    }

    /// The Laplacian matrix: the degree matrix less the adjacency matrix.
    pub fn laplacian_matrix(&self) -> (out: Vec<Vec<i128>>)
        ensures
            out@.len() == self@.n_sommet(),
            forall|i: int|
                0 <= i < out@.len() ==> (#[trigger] out@[i])@.len() == self@.n_sommet(),
            forall|i: int, j: int|
                0 <= i < out@.len() && 0 <= j < out@.len() ==> #[trigger] out@[i]@[j] == laplacian(
                    self@.adj,
                    i,
                    j,
                ),
    {
        let n = self.n_sommet();
        let degrees = self.degrees();
        let mut out: Vec<Vec<i128>> = Vec::new();
        let mut i: usize = 0;
        while i < n
            invariant
                n == self@.n_sommet(),
                self@.wf(),
                degrees@.len() == n,
                forall|t: int| 0 <= t < n ==> #[trigger] degrees@[t] == degree(self@.adj, t),
                i <= n,
                out@.len() == i,
                forall|t: int| 0 <= t < i ==> (#[trigger] out@[t])@.len() == n,
                forall|t: int, j: int|
                    0 <= t < i && 0 <= j < n ==> #[trigger] out@[t]@[j] == laplacian(
                        self@.adj,
                        t,
                        j,
                    ),
            decreases n - i,
        {
            let mut row: Vec<i128> = Vec::new();
            let mut j: usize = 0;
            while j < n
                invariant
                    n == self@.n_sommet(),
                    self@.wf(),
                    degrees@.len() == n,
                    degrees@[i as int] == degree(self@.adj, i as int),
                    i < n,
                    j <= n,
                    row@.len() == j,
                    forall|c: int|
                        0 <= c < j ==> #[trigger] row@[c] == laplacian(self@.adj, i as int, c),
                decreases n - j,
            {
                let joined = self.has_edge(i, j);
                if i == j {
                    row.push(degrees[i] as i128);
                } else if joined {
                    row.push(-1);
                } else {
                    row.push(0);
                }
                j += 1;
            }
            out.push(row);
            i += 1;
        }
        out
    }

    /// For each vertex the sum of the degrees of its neighbours, and its own
    /// degree: the average degree of the neighbours is their quotient, which
    /// does not exist at an isolated vertex.
    pub fn average_degree_neighbors_vec(&self) -> (out: Vec<(u128, usize)>)
        ensures
            out@.len() == self@.n_sommet(),
            forall|i: int|
                0 <= i < out@.len() ==> (#[trigger] out@[i]).0 == neighbor_sum(
                    self@.adj,
                    i,
                    self@.n_sommet() as int,
                ) && out@[i].1 == degree(self@.adj, i),
    {
        let n = self.n_sommet();
        let degrees = self.degrees();
        let mut out: Vec<(u128, usize)> = Vec::new();
        let mut i: usize = 0;
        proof {
            assert(n * n <= u128::MAX) by (nonlinear_arith)
                requires
                    n <= 0xffff_ffff_ffff_ffff,
            ;
        }
        while i < n
            invariant
                n == self@.n_sommet(),
                self@.wf(),
                n * n <= u128::MAX,
                degrees@.len() == n,
                forall|t: int| 0 <= t < n ==> #[trigger] degrees@[t] == degree(self@.adj, t),
                i <= n,
                out@.len() == i,
                forall|t: int|
                    0 <= t < i ==> (#[trigger] out@[t]).0 == neighbor_sum(self@.adj, t, n as int)
                        && out@[t].1 == degree(self@.adj, t),
            decreases n - i,
        {
            let mut sum: u128 = 0;
            let mut j: usize = 0;
            while j < n
                invariant
                    n == self@.n_sommet(),
                    self@.wf(),
                    n * n <= u128::MAX,
                    degrees@.len() == n,
                    forall|t: int| 0 <= t < n ==> #[trigger] degrees@[t] == degree(self@.adj, t),
                    i < n,
                    j <= n,
                    sum == neighbor_sum(self@.adj, i as int, j as int),
                decreases n - j,
            {
                proof {
                    lemma_neighbor_sum(self@.adj, i as int, j + 1, n as nat);
                    assert((j + 1) * n <= n * n) by (nonlinear_arith)
                        requires
                            j + 1 <= n,
                    ;
                }
                if self.has_edge(i, j) {
                    sum = sum + degrees[j] as u128;
                }
                j += 1;
            }
            out.push((sum, degrees[i]));
            i += 1;
        }
        out
    }
}

} // verus!
