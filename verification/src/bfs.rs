//! Best-first search: a frontier of weighted states kept in ascending order of
//! weight, so that the heaviest node leaves first.

use std::collections::HashSet;
use vstd::prelude::*;
use crate::graph::legal_moves;
use crate::harness::{verdict_of, Incumbent, IncumbentView, Verdict};
use crate::score::{Score, NEG_INFINITY_KEY};
use crate::state::State;

verus! {

/// A state with the weight that orders it in the frontier.
pub struct WS {
    pub w: Score,
    pub s: State,
}

impl Clone for WS {
    /// A copy of the same weight that stands for the same state.
    fn clone(&self) -> (node: WS)
        ensures
            node.w == self.w,
            node.s@ == self.s@,
    {
        WS { w: self.w, s: self.s.clone() }
    }
}

/// The weights never fall from front to back: taken from the back, the nodes
/// come in non-increasing order of weight.
pub open spec fn ascending(l: Seq<WS>) -> bool {
    forall|i: int, j: int| 0 <= i <= j < l.len() ==> l[i].w.key <= l[j].w.key
}

/// A node of weight `w` may stand at index `i`: nothing before it is heavier,
/// nothing from there on is lighter.
pub open spec fn is_insertion_point(l: Seq<WS>, w: Score, i: int) -> bool {
    &&& 0 <= i <= l.len()
    &&& forall|k: int| 0 <= k < i ==> (#[trigger] l[k]).w.key <= w.key
    &&& forall|k: int| i <= k < l.len() ==> (#[trigger] l[k]).w.key >= w.key
}

/// The index that a scan from index `k` towards the back stops at: that of the
/// first node that is not lighter than `w`, or the length.
pub open spec fn linear_from(l: Seq<WS>, w: Score, k: int) -> int
    decreases l.len() - k,
{
    if k < 0 || k >= l.len() || l[k].w.key >= w.key {
        k
    } else {
        linear_from(l, w, k + 1)
    }
}

/// The index at which a linear search from the front inserts a node of weight
/// `w`.
pub open spec fn linear_index(l: Seq<WS>, w: Score) -> int {
    linear_from(l, w, 0)
}

/// What a linear scan finds: every node it passed is lighter than `w`, and the
/// node it stopped at is not.
pub proof fn lemma_linear_from(l: Seq<WS>, w: Score, k: int)
    requires
        0 <= k <= l.len(),
    ensures
        k <= linear_from(l, w, k) <= l.len(),
        forall|j: int| k <= j < linear_from(l, w, k) ==> (#[trigger] l[j]).w.key < w.key,
        linear_from(l, w, k) < l.len() ==> l[linear_from(l, w, k)].w.key >= w.key,
    decreases l.len() - k,
{
    if k < l.len() && l[k].w.key < w.key {
        lemma_linear_from(l, w, k + 1);
    }
}

/// No insertion point lies before the index of the linear search, and where
/// no node of the frontier weighs exactly `w` the insertion point is that
/// index.
pub proof fn lemma_insertion_point_is_linear(l: Seq<WS>, w: Score, i: int)
    requires
        ascending(l),
        is_insertion_point(l, w, i),
    ensures
        linear_index(l, w) <= i,
        (forall|k: int| 0 <= k < l.len() ==> (#[trigger] l[k]).w.key != w.key) ==> i
            == linear_index(l, w),
{
    lemma_linear_from(l, w, 0);
    let r = linear_index(l, w);
    if r > i {
        assert(l[i].w.key < w.key);
    }
    if forall|k: int| 0 <= k < l.len() ==> (#[trigger] l[k]).w.key != w.key {
        if r < i {
            assert(l[r].w.key <= w.key);
        }
    }
}

/// A node put at an insertion point leaves the frontier ascending.
pub proof fn lemma_insert_keeps_ascending(l: Seq<WS>, node: WS, i: int)
    requires
        ascending(l),
        is_insertion_point(l, node.w, i),
    ensures
        ascending(l.insert(i, node)),
{
    let m = l.insert(i, node);
    assert forall|a: int, b: int| 0 <= a <= b < m.len() implies m[a].w.key <= m[b].w.key by {
        if a < i {
            assert(m[a] == l[a]);
        } else if a > i {
            assert(m[a] == l[a - 1]);
        }
        if b < i {
            assert(m[b] == l[b]);
        } else if b > i {
            assert(m[b] == l[b - 1]);
        }
    }
}

/// The index at which `node` enters the ascending frontier `l`, found by
/// halving the range that may hold it: an insertion point for its weight, and
/// the index of the linear search where no node of the frontier has that
/// weight. Among nodes of its own weight the index is the one that the halving
/// happens to reach.
#[allow(non_snake_case)]
pub fn insertDicho(l: &Vec<WS>, node: &WS) -> (i: usize)
    requires
        ascending(l@),
    ensures
        is_insertion_point(l@, node.w, i as int),
        linear_index(l@, node.w) <= i,
        (forall|k: int| 0 <= k < l@.len() ==> (#[trigger] l@[k]).w.key != node.w.key) ==> i
            == linear_index(l@, node.w),
{
    let i = halve(l, node);
    proof {
        lemma_insertion_point_is_linear(l@, node.w, i as int);
    }
    i
}

/// An insertion point for `node` in the ascending frontier `l`, found by
/// halving the range that may hold it.
fn halve(l: &Vec<WS>, node: &WS) -> (i: usize)
    requires
        ascending(l@),
    ensures
        is_insertion_point(l@, node.w, i as int),
{
    if l.len() == 0 {
        return 0;
    }
    let w = node.w.key;
    let mut i: usize = l.len() / 2;
    let mut mi: usize = 0;
    let mut ma: usize = l.len() - 1;
    while (i != 0 && l[i - 1].w.key > w) || l[i].w.key < w
        invariant
            ascending(l@),
            w == node.w.key,
            mi <= i <= ma < l@.len() <= usize::MAX,
            forall|k: int| 0 <= k < mi ==> (#[trigger] l@[k]).w.key < w,
            ma == l@.len() - 1 || l@[ma as int].w.key >= w,
        decreases ma - mi, i,
    {
        if l[i].w.key < w {
            assert forall|k: int| 0 <= k < i + 1 implies (#[trigger] l@[k]).w.key < w by {
                assert(l@[k].w.key <= l@[i as int].w.key);
            }
            mi = i + 1;
            if mi > ma {
                return mi;
            }
        } else {
            ma = i;
        }
        i = mi + (ma - mi) / 2;
    }
    assert forall|k: int| 0 <= k < i implies (#[trigger] l@[k]).w.key <= w by {
        assert(l@[k].w.key <= l@[i - 1].w.key);
    }
    assert forall|k: int| i <= k < l@.len() implies (#[trigger] l@[k]).w.key >= w by {
        assert(l@[i as int].w.key <= l@[k].w.key);
    }
    i
}

/// The children of `node`, one for each move open on it, in the order of the
/// moves.
pub fn expand(node: &State) -> (children: Vec<State>)
    ensures
        children@.len() == legal_moves(node@.adj, node@.size_terminal).len(),
        forall|k: int|
            0 <= k < children@.len() ==> (#[trigger] children@[k])@ == node@.play(
                legal_moves(node@.adj, node@.size_terminal)[k],
            ),
{
    let moves = node.legal_moves();
    let mut children: Vec<State> = Vec::new();
    let mut k: usize = 0;
    while k < moves.len()
        invariant
            moves@ == legal_moves(node@.adj, node@.size_terminal),
            k <= moves@.len(),
            children@.len() == k,
            forall|t: int| 0 <= t < k ==> (#[trigger] children@[t])@ == node@.play(moves@[t]),
        decreases moves@.len() - k,
    {
        let mut child = node.clone();
        child.play(moves[k]);
        children.push(child);
        k += 1;
    }
    children
}

/// A frontier of weighted states. It ascends at all times: the heaviest node
/// stands last.
pub struct Frontier {
    nodes: Vec<WS>,
}

impl View for Frontier {
    type V = Seq<WS>;

    closed spec fn view(&self) -> Seq<WS> {
        self.nodes@
    }
}

impl Frontier {
    /// What holds of every frontier: it ascends.
    #[verifier::type_invariant]
    pub closed spec fn wf(&self) -> bool {
        ascending(self.nodes@)
    }

    /// The frontier without nodes.
    pub fn new() -> (f: Frontier)
        ensures
            f@ == Seq::<WS>::empty(),
    {
        Frontier { nodes: Vec::new() }
    }

    /// The number of nodes; the frontier ascends.
    pub fn len(&self) -> (n: usize)
        ensures
            n == self@.len(),
            ascending(self@),
    {
        proof {
            use_type_invariant(self);
        }
        self.nodes.len()
    }

    /// Puts `node` at an insertion point for its weight, found by halving, and
    /// says where. The frontier ascends before and after.
    pub fn insert(&mut self, node: WS) -> (i: usize)
        ensures
            ascending(old(self)@),
            ascending(final(self)@),
            is_insertion_point(old(self)@, node.w, i as int),
            linear_index(old(self)@, node.w) <= i,
            (forall|k: int| 0 <= k < old(self)@.len() ==> (#[trigger] old(self)@[k]).w.key
                != node.w.key) ==> i == linear_index(old(self)@, node.w),
            final(self)@ == old(self)@.insert(i as int, node),
    {
        proof {
            use_type_invariant(&*self);
        }
        let mut nodes: Vec<WS> = Vec::new();
        std::mem::swap(&mut nodes, &mut self.nodes);
        let i = insertDicho(&nodes, &node);
        proof {
            lemma_insert_keeps_ascending(nodes@, node, i as int);
        }
        nodes.insert(i, node);
        self.nodes = nodes;
        i
    }

    /// Takes the heaviest node out, if there is one: the last, which no node
    /// of the frontier outweighs.
    pub fn pop(&mut self) -> (node: Option<WS>)
        ensures
            ascending(old(self)@),
            ascending(final(self)@),
            old(self)@.len() == 0 ==> node.is_none() && final(self)@ == old(self)@,
            old(self)@.len() > 0 ==> {
                &&& node == Some(old(self)@.last())
                &&& final(self)@ == old(self)@.drop_last()
                &&& forall|k: int|
                    0 <= k < old(self)@.len() ==> (#[trigger] old(self)@[k]).w.key
                        <= node.unwrap().w.key
            },
    {
        proof {
            use_type_invariant(&*self);
        }
        let ghost before = self.nodes@;
        let mut nodes: Vec<WS> = Vec::new();
        std::mem::swap(&mut nodes, &mut self.nodes);
        let node = nodes.pop();
        proof {
            if before.len() > 0 {
                assert(nodes@ =~= before.drop_last());
            }
        }
        self.nodes = nodes;
        node
    }
}

/// Begins a best-first search from `inist`: the frontier holds `inist` alone,
/// at weight zero, and `inist` is the best state until a score is seen. A
/// child is weighed by the best of `p + 1` playouts, or by its own score where
/// `p` is negative.
#[allow(non_snake_case)]
pub fn BFS(inist: &State, p: i32) -> (bfs: Bfs)
    ensures
        bfs.p() == p,
        bfs.open_nodes().len() == 1,
        bfs.open_nodes()[0].w.key == 0,
        bfs.open_nodes()[0].s@ == inist@,
        bfs.incumbent().best_score.key == NEG_INFINITY_KEY,
        bfs.incumbent().best_state == inist@,
{
    Bfs::new(inist, p)
}

/// Begins a best-first search from `init_stat`, as [`BFS`] does.
pub fn launch_bfs(init_stat: &State, p: i32) -> (bfs: Bfs)
    ensures
        bfs.p() == p,
        bfs.open_nodes().len() == 1,
        bfs.open_nodes()[0].w.key == 0,
        bfs.open_nodes()[0].s@ == init_stat@,
        bfs.incumbent().best_score.key == NEG_INFINITY_KEY,
        bfs.incumbent().best_state == init_stat@,
{
    BFS(init_stat, p)
}

/// The weights at which nodes were expanded, each by the whole number that
/// stands for it: the weight times ten to the tenth, cut off.
pub struct VisitedScores {
    seen: HashSet<i64>,
}

impl View for VisitedScores {
    type V = Set<i64>;

    closed spec fn view(&self) -> Set<i64> {
        self.seen@
    }
}

impl VisitedScores {
    /// No weight seen yet.
    pub fn new() -> (v: VisitedScores)
        ensures
            v@ == Set::<i64>::empty(),
    {
        VisitedScores { seen: HashSet::new() }
    }

    /// Was a node of this weight expanded?
    pub fn contains(&self, bucket: i64) -> (b: bool)
        ensures
            b == self@.contains(bucket),
    {
        broadcast use vstd::std_specs::hash::group_hash_axioms;

        self.seen.contains(&bucket)
    }

    /// A node of this weight is expanded.
    pub fn insert(&mut self, bucket: i64)
        ensures
            final(self)@ == old(self)@.insert(bucket),
    {
        broadcast use vstd::std_specs::hash::group_hash_axioms;

        self.seen.insert(bucket);
    }
}

/// A best-first search in progress.
pub struct Bfs {
    open_nodes: Frontier,
    incumbent: Incumbent,
    p: i32,
}

impl Bfs {
    /// The frontier, lightest node first.
    pub closed spec fn open_nodes(&self) -> Seq<WS> {
        self.open_nodes@
    }

    /// The best state seen so far.
    pub closed spec fn incumbent(&self) -> IncumbentView {
        self.incumbent@
    }

    /// The number of further playouts that weigh a child, or a negative
    /// number where a child is weighed by its own score.
    pub closed spec fn p(&self) -> i32 {
        self.p
    }

    /// A search whose frontier holds `inist` alone, at weight zero, and whose
    /// best state is `inist` until a score is seen.
    pub fn new(inist: &State, p: i32) -> (bfs: Bfs)
        ensures
            bfs.p() == p,
            bfs.open_nodes().len() == 1,
            bfs.open_nodes()[0].w.key == 0,
            bfs.open_nodes()[0].s@ == inist@,
            bfs.incumbent().best_score.key == NEG_INFINITY_KEY,
            bfs.incumbent().best_state == inist@,
    {
        let mut open_nodes = Frontier::new();
        open_nodes.insert(WS { w: Score::zero(), s: inist.clone() });
        Bfs { open_nodes, incumbent: Incumbent::new(inist.clone()), p }
    }

    /// The number of nodes in the frontier; the frontier ascends.
    pub fn open_count(&self) -> (n: usize)
        ensures
            n == self.open_nodes().len(),
            ascending(self.open_nodes()),
    {
        self.open_nodes.len()
    }

    /// How many playouts weigh each child: `p + 1`, or none where `p` is
    /// negative.
    pub fn playouts_per_child(&self) -> (n: u32)
        ensures
            n == if self.p() >= 0 {
                self.p() + 1
            } else {
                0
            },
    {
        if self.p >= 0 {
            self.p as u32 + 1
        } else {
            0
        }
    }

    /// The best state seen so far.
    pub fn best_state(&self) -> (s: &State)
        ensures
            s@ == self.incumbent().best_state,
    {
        self.incumbent.best_state()
    }

    /// The best score seen so far.
    pub fn best_score(&self) -> (s: Score)
        ensures
            s == self.incumbent().best_score,
    {
        self.incumbent.best_score()
    }

    /// Takes the heaviest node out of the frontier, if there is one.
    pub fn pop(&mut self) -> (node: Option<WS>)
        ensures
            ascending(final(self).open_nodes()),
            final(self).incumbent() == old(self).incumbent(),
            final(self).p() == old(self).p(),
            old(self).open_nodes().len() == 0 ==> node.is_none() && final(self).open_nodes()
                == old(self).open_nodes(),
            old(self).open_nodes().len() > 0 ==> {
                &&& node == Some(old(self).open_nodes().last())
                &&& final(self).open_nodes() == old(self).open_nodes().drop_last()
                &&& forall|k: int|
                    0 <= k < old(self).open_nodes().len() ==> (#[trigger] old(self).open_nodes()[k]).w.key
                        <= node.unwrap().w.key
            },
    {
        self.open_nodes.pop()
    }

    /// Is `node`, just taken out of the frontier, passed over where repeated
    /// scores are suppressed? It is where a node of its weight was expanded
    /// before, unless its weight is zero or the frontier has no other node to
    /// offer.
    pub fn skips(&self, visited: &VisitedScores, node: &WS, bucket: i64) -> (b: bool)
        ensures
            b == (visited@.contains(bucket) && node.w.key != 0 && self.open_nodes().len() != 0),
    {
        visited.contains(bucket) && node.w.key != 0 && self.open_nodes.len() != 0
    }

    /// Takes in a child of the node just expanded. `weight` is what orders the
    /// child, and `witness` the state that earned it: the child itself, or the
    /// best state of its playouts.
    ///
    /// A weight above the best score makes `witness` the best state. Unless it
    /// refutes the conjecture, the child then enters the frontier at an
    /// insertion point for its weight, which leaves the frontier ascending; a
    /// child weighed by its own score enters only if it is not terminal.
    pub fn absorb(&mut self, child: State, weight: Score, witness: &State) -> (v: Verdict)
        ensures
            ascending(final(self).open_nodes()),
            final(self).p() == old(self).p(),
            v == verdict_of(old(self).incumbent().best_score, weight),
            final(self).incumbent() == old(self).incumbent().offer(witness@, weight),
            v == Verdict::Counterexample || (old(self).p() < 0 && child@.terminal())
                ==> final(self).open_nodes() == old(self).open_nodes(),
            !(v == Verdict::Counterexample || (old(self).p() < 0 && child@.terminal()))
                ==> exists|i: int|
                is_insertion_point(old(self).open_nodes(), weight, i)
                    && #[trigger] old(self).open_nodes().insert(i, WS { w: weight, s: child })
                    == final(self).open_nodes(),
    {
        proof {
            use_type_invariant(&self.open_nodes);
        }
        let v = self.incumbent.offer(witness, weight);
        if v == Verdict::Counterexample || (self.p < 0 && child.terminal()) {
            return v;
        }
        let node = WS { w: weight, s: child };
        let i = self.open_nodes.insert(node);
        assert(is_insertion_point(old(self).open_nodes(), weight, i as int));
        assert(old(self).open_nodes().insert(i as int, WS { w: weight, s: child })
            == self.open_nodes());
        v
    }
}

} // verus!
