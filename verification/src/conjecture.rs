//! The shape of the sixty-eight conjectures: which elements of a graph each
//! one is evaluated on, what stands in for an element whose value does not
//! exist, and how the values of the elements bound the eigenvalue.

use vstd::prelude::*;
use crate::degree::{degree, neighbor_sum};
use crate::graph::{edges, keeps, lemma_pairs_below, Graph};
use crate::score::Score;
use crate::state::State;

verus! {

/// The number of conjectures.
pub const CONJECTURES: usize = 68;

/// The elements of a graph that a conjecture is evaluated on.
#[derive(PartialEq, Eq, Structural, Clone, Copy, Debug)]
pub enum Family {
    /// One value for each vertex.
    Vertex,
    /// One value for each edge, in lexicographic order.
    Edge,
    /// No conjecture has this identifier: no element has a value.
    Unknown,
}

/// What stands in for the value of an element where the formula has none.
#[derive(PartialEq, Eq, Structural, Clone, Copy, Debug)]
pub enum Fallback {
    /// Zero.
    Zero,
    /// Two, for the formulas that add a square root to two.
    Two,
    /// Two, less the degrees of the two ends, plus the average degrees of
    /// their neighbours.
    DegreeGap,
    /// The sum of the squares of the degrees of the two ends.
    SquareSum,
}

/// The family of conjecture `conj`.
pub open spec fn family_of(conj: nat) -> Family {
    if 1 <= conj <= 32 {
        Family::Vertex
    } else if 33 <= conj <= 68 {
        Family::Edge
    } else {
        Family::Unknown
    }
}

/// The conjectures whose formula adds a square root to two.
pub open spec fn adds_root_to_two(conj: nat) -> bool {
    conj == 39 || conj == 40 || 43 <= conj <= 46 || conj == 49 || 52 <= conj <= 55 || conj == 57
        || conj == 58 || conj == 60 || conj == 62 || conj == 68
}

/// The fallback of conjecture `conj`.
pub open spec fn fallback_of(conj: nat) -> Fallback {
    if conj == 41 {
        Fallback::DegreeGap
    } else if conj == 48 {
        Fallback::SquareSum
    } else if adds_root_to_two(conj) {
        Fallback::Two
    } else {
        Fallback::Zero
    }
}

/// The greatest key among the first `k` values.
pub open spec fn greatest(values: Seq<Score>, k: int) -> int
    decreases k,
{
    if k <= 1 {
        values[0].key as int
    } else if values[k - 1].key > greatest(values, k - 1) {
        values[k - 1].key as int
    } else {
        greatest(values, k - 1)
    }
}

/// The bound that the values of the elements put on the eigenvalue: the
/// greatest of them, or zero where there is no element.
pub open spec fn bound_of(values: Seq<Score>) -> int {
    if values.len() == 0 {
        0
    } else {
        greatest(values, values.len() as int)
    }
}

/// The greatest value is one of the values, and none is above it.
pub proof fn lemma_greatest(values: Seq<Score>, k: int)
    requires
        1 <= k <= values.len(),
    ensures
        exists|t: int| 0 <= t < k && (#[trigger] values[t]).key == greatest(values, k),
        forall|t: int| 0 <= t < k ==> (#[trigger] values[t]).key <= greatest(values, k),
    decreases k,
{
    if k > 1 {
        lemma_greatest(values, k - 1);
        let t = choose|t: int| 0 <= t < k - 1 && (#[trigger] values[t]).key == greatest(
            values,
            k - 1,
        );
        if values[k - 1].key > greatest(values, k - 1) {
            assert(values[k - 1].key == greatest(values, k));
        } else {
            assert(values[t].key == greatest(values, k));
        }
    } else {
        assert(values[0].key == greatest(values, k));
    }
}

/// What a formula is evaluated on: a vertex, or the two ends of an edge. For
/// a vertex both ends are that vertex.
#[derive(PartialEq, Eq, Structural, Clone, Copy, Debug)]
pub struct Element {
    /// The degree of the first end.
    pub di: usize,
    /// The degree of the second end.
    pub dj: usize,
    /// The sum of the degrees of the neighbours of the first end.
    pub si: u128,
    /// The sum of the degrees of the neighbours of the second end.
    pub sj: u128,
}

/// Does `e` hold the degrees and the neighbour sums of `i` and `j` in `g`?
pub open spec fn is_element(e: Element, g: Graph, i: int, j: int) -> bool {
    &&& e.di == degree(g, i)
    &&& e.dj == degree(g, j)
    &&& e.si == neighbor_sum(g, i, g.len() as int)
    &&& e.sj == neighbor_sum(g, j, g.len() as int)
}

/// Are `out` the elements that conjecture `conj` is evaluated on in `g`? They
/// are the vertices in ascending order for a conjecture on vertices, the edges
/// in lexicographic order for a conjecture on edges, and none otherwise.
pub open spec fn are_elements(out: Seq<Element>, g: Graph, conj: nat) -> bool {
    match family_of(conj) {
        Family::Vertex => {
            &&& out.len() == g.len()
            &&& forall|i: int| 0 <= i < out.len() ==> is_element(#[trigger] out[i], g, i, i)
        },
        Family::Edge => {
            &&& out.len() == edges(g).len()
            &&& forall|k: int|
                0 <= k < out.len() ==> is_element(
                    #[trigger] out[k],
                    g,
                    edges(g)[k].0 as int,
                    edges(g)[k].1 as int,
                )
        },
        Family::Unknown => out.len() == 0,
    }
}

impl State {
    /// The elements that the conjecture of the state is evaluated on, each
    /// with the integers that its formula takes: the degrees of its ends and
    /// the sums of the degrees of their neighbours.
    pub fn elements(&self) -> (out: Vec<Element>)
        ensures
            are_elements(out@, self@.adj, self@.conj),
    {
        let stats = self.average_degree_neighbors_vec();
        let mut out: Vec<Element> = Vec::new();
        match family(self.conj()) {
            Family::Vertex => {
                let mut i: usize = 0;
                while i < stats.len()
                    invariant
                        i <= stats@.len(),
                        stats@.len() == self@.n_sommet(),
                        forall|t: int|
                            0 <= t < stats@.len() ==> (#[trigger] stats@[t]).0 == neighbor_sum(
                                self@.adj,
                                t,
                                self@.n_sommet() as int,
                            ) && stats@[t].1 == degree(self@.adj, t),
                        out@.len() == i,
                        forall|t: int|
                            0 <= t < i ==> is_element(#[trigger] out@[t], self@.adj, t, t),
                    decreases stats@.len() - i,
                {
                    let s = stats[i];
                    out.push(Element { di: s.1, dj: s.1, si: s.0, sj: s.0 });
                    i += 1;
                }
            },
            Family::Edge => {
                let pairs = self.edges();
                let n = self.n_sommet();
                proof {
                    lemma_pairs_below(n as int, n as int, keeps(self@.adj, Some(true)));
                }
                let mut k: usize = 0;
                while k < pairs.len()
                    invariant
                        k <= pairs@.len(),
                        pairs@ == edges(self@.adj),
                        stats@.len() == self@.n_sommet(),
                        forall|t: int|
                            0 <= t < pairs@.len() ==> (#[trigger] pairs@[t]).0 < pairs@[t].1
                                < self@.n_sommet(),
                        forall|t: int|
                            0 <= t < stats@.len() ==> (#[trigger] stats@[t]).0 == neighbor_sum(
                                self@.adj,
                                t,
                                self@.n_sommet() as int,
                            ) && stats@[t].1 == degree(self@.adj, t),
                        out@.len() == k,
                        forall|t: int|
                            0 <= t < k ==> is_element(
                                #[trigger] out@[t],
                                self@.adj,
                                pairs@[t].0 as int,
                                pairs@[t].1 as int,
                            ),
                    decreases pairs@.len() - k,
                {
                    let p = pairs[k];
                    let a = stats[p.0];
                    let b = stats[p.1];
                    out.push(Element { di: a.1, dj: b.1, si: a.0, sj: b.0 });
                    k += 1;
                }
            },
            Family::Unknown => {},
        }
        out
    }
}

/// The family of conjecture `conj`.
pub fn family(conj: usize) -> (f: Family)
    ensures
        f == family_of(conj as nat),
{
    if 1 <= conj && conj <= 32 {
        Family::Vertex
    } else if 33 <= conj && conj <= CONJECTURES {
        Family::Edge
    } else {
        Family::Unknown
    }
}

/// The fallback of conjecture `conj`.
pub fn fallback(conj: usize) -> (f: Fallback)
    ensures
        f == fallback_of(conj as nat),
{
    if conj == 41 {
        Fallback::DegreeGap
    } else if conj == 48 {
        Fallback::SquareSum
    } else if conj == 39 || conj == 40 || (43 <= conj && conj <= 46) || conj == 49 || (52 <= conj
        && conj <= 55) || conj == 57 || conj == 58 || conj == 60 || conj == 62 || conj == 68 {
        Fallback::Two
    } else {
        Fallback::Zero
    }
}

/// The bound that the values of the elements put on the eigenvalue.
pub fn bound(values: &Vec<Score>) -> (b: Score)
    ensures
        b.key == bound_of(values@),
{
    if values.len() == 0 {
        return Score::zero();
    }
    let mut best: i64 = values[0].key;
    let mut k: usize = 1;
    while k < values.len()
        invariant
            1 <= k <= values@.len(),
            best == greatest(values@, k as int),
        decreases values@.len() - k,
    {
        if values[k].key > best {
            best = values[k].key;
        }
        k += 1;
    }
    Score { key: best }
}

} // verus!
