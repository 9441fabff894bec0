//! Generalized rapid action value estimation: a tree search over a
//! transposition table keyed by move sequences, whose entries hold for each
//! move the results of the rollouts through it and of the rollouts in which
//! it was played at all.

use vstd::prelude::*;
use crate::graph::{legal_moves, Move};
use crate::harness::{verdict_of, Incumbent, IncumbentView, Verdict};
use crate::score::{Score, INFINITY_KEY, NEG_INFINITY_KEY};
use crate::playout::{Playout, PlayoutView};
use crate::state::{copy_moves, State, StateView};
use crate::table::{copy_scores, credit, credit_all, tail_from, MoveTable};

verus! {

/// The statistics of one node of the search tree.
#[allow(non_camel_case_types)]
pub struct transEntry {
    wins: MoveTable,
    amaf: MoveTable,
    results: Vec<Score>,
}

/// What a [`transEntry`] stands for.
pub struct TransEntryView {
    /// For each move played from the node, the results of the rollouts that
    /// went through it.
    pub wins: Map<Move, Seq<Score>>,
    /// For each move, the results of the rollouts from the node in which the
    /// move was played at any depth.
    pub amaf: Map<Move, Seq<Score>>,
    /// The number of rollouts through the node.
    pub allplayouts: nat,
}

impl TransEntryView {
    /// The entry that has seen no rollout.
    pub open spec fn empty() -> TransEntryView {
        TransEntryView { wins: Map::empty(), amaf: Map::empty(), allplayouts: 0 }
    }

    /// The entry after one more rollout through the node: `res` is credited to
    /// the move `m` that was played from it, and to every move of `tail`, the
    /// moves played from the node down.
    pub open spec fn visited(self, m: Move, res: Score, tail: Seq<Move>) -> TransEntryView {
        TransEntryView {
            wins: credit(self.wins, m, res),
            amaf: credit_all(self.amaf, tail, res),
            allplayouts: self.allplayouts + 1,
        }
    }

    /// The entry of a node after its first rollout: the move played and its
    /// result, over the all-moves statistics inherited from `tref`.
    pub open spec fn fresh(tref: TransEntryView, m: Move, res: Score, tail: Seq<Move>)
        -> TransEntryView {
        TransEntryView {
            wins: credit(Map::empty(), m, res),
            amaf: credit_all(tref.amaf, tail, res),
            allplayouts: 1,
        }
    }
}

impl View for transEntry {
    type V = TransEntryView;

    closed spec fn view(&self) -> TransEntryView {
        TransEntryView { wins: self.wins@, amaf: self.amaf@, allplayouts: self.results@.len() }
    }
}

impl transEntry {
    /// The entry that has seen no rollout.
    pub fn new() -> (e: transEntry)
        ensures
            e@ == TransEntryView::empty(),
    {
        transEntry { wins: MoveTable::new(), amaf: MoveTable::new(), results: Vec::new() }
    }

    /// The results of the rollouts through each move.
    pub fn wins(&self) -> (t: &MoveTable)
        ensures
            t@ == self@.wins,
    {
        &self.wins
    }

    /// The results of the rollouts in which each move was played.
    pub fn amaf(&self) -> (t: &MoveTable)
        ensures
            t@ == self@.amaf,
    {
        &self.amaf
    }

    /// The number of rollouts through the node.
    pub fn allplayouts(&self) -> (n: usize)
        ensures
            n == self@.allplayouts,
    {
        self.results.len()
    }

    /// Takes in one more rollout through the node.
    pub fn visit(&mut self, m: Move, res: Score, seq: &Vec<Move>, from: usize)
        ensures
            final(self)@ == old(self)@.visited(m, res, tail_from(seq@, from as int)),
    {
        self.wins.credit(m, res);
        self.amaf.credit_tail(seq, from, res);
        self.results.push(res);
    }

    /// The entry of a node after its first rollout.
    pub fn fresh(tref: &transEntry, m: Move, res: Score, seq: &Vec<Move>, from: usize) -> (e:
        transEntry)
        ensures
            e@ == TransEntryView::fresh(tref@, m, res, tail_from(seq@, from as int)),
    {
        let mut wins = MoveTable::new();
        wins.credit(m, res);
        let mut amaf = tref.amaf.clone();
        amaf.credit_tail(seq, from, res);
        let mut results: Vec<Score> = Vec::new();
        results.push(res);
        transEntry { wins, amaf, results }
    }
}

impl Clone for transEntry {
    /// A copy that stands for the same entry.
    fn clone(&self) -> (e: transEntry)
        ensures
            e@ == self@,
    {
        transEntry {
            wins: self.wins.clone(),
            amaf: self.amaf.clone(),
            results: copy_scores(&self.results),
        }
    }
}

/// A node of the table: a move sequence and the statistics of the state it
/// leads to.
struct Node {
    key: Vec<Move>,
    entry: transEntry,
}

/// Does `key` stand among `nodes`?
spec fn has_key(nodes: Seq<Node>, key: Seq<Move>) -> bool {
    exists|k: int| 0 <= k < nodes.len() && (#[trigger] nodes[k]).key@ == key
}

/// An index at which `key` stands among `nodes`.
spec fn index_of_key(nodes: Seq<Node>, key: Seq<Move>) -> int {
    choose|k: int| 0 <= k < nodes.len() && (#[trigger] nodes[k]).key@ == key
}

/// No move sequence stands twice among `nodes`.
spec fn distinct_keys(nodes: Seq<Node>) -> bool {
    forall|i: int, j: int|
        0 <= i < j < nodes.len() ==> (#[trigger] nodes[i]).key@ != (#[trigger] nodes[j]).key@
}

/// The table that `nodes` stand for.
spec fn nodes_view(nodes: Seq<Node>) -> Map<Seq<Move>, TransEntryView> {
    Map::new(
        |key: Seq<Move>| has_key(nodes, key),
        |key: Seq<Move>| nodes[index_of_key(nodes, key)].entry@,
    )
}

/// One step of a descent: the move sequence of the node left, and the move
/// played from it.
pub struct Step {
    pub key: Vec<Move>,
    pub m: Move,
}

/// The table after the result `res` of a rollout that played `seq` went back
/// up the nodes of `path`: each node that the table knows takes in the rollout,
/// with the moves of `seq` from its own depth on.
pub open spec fn backed_up(
    table: Map<Seq<Move>, TransEntryView>,
    path: Seq<Step>,
    res: Score,
    seq: Seq<Move>,
) -> Map<Seq<Move>, TransEntryView>
    decreases path.len(),
{
    if path.len() == 0 {
        table
    } else {
        let t = backed_up(table, path.drop_last(), res, seq);
        let s = path.last();
        if t.contains_key(s.key@) {
            t.insert(s.key@, t[s.key@].visited(s.m, res, tail_from(seq, s.key@.len() as int)))
        } else {
            t
        }
    }
}

/// The key under which a value counts in the choice of a move: a move without
/// a value is preferred to every move that has one.
pub open spec fn value_key(v: Option<Score>) -> int {
    match v {
        None => INFINITY_KEY as int,
        Some(s) => s.key as int,
    }
}

/// The choice among the first `k` values: the index of the first value that
/// is strictly above negative infinity and all values before it, with the key
/// of that value; index `0` where there is none.
pub open spec fn choice_among(values: Seq<Option<Score>>, k: int) -> (int, int)
    decreases k,
{
    if k <= 0 {
        (0, NEG_INFINITY_KEY as int)
    } else {
        let (i, best) = choice_among(values, k - 1);
        if value_key(values[k - 1]) > best {
            (k - 1, value_key(values[k - 1]))
        } else {
            (i, best)
        }
    }
}

/// The index of the move that the search plays.
pub open spec fn choice(values: Seq<Option<Score>>) -> int {
    choice_among(values, values.len() as int).0
}

/// The choice is the first index whose value no other value exceeds.
pub proof fn lemma_choice_among(values: Seq<Option<Score>>, k: int)
    requires
        0 <= k <= values.len(),
    ensures
        ({
            let (i, best) = choice_among(values, k);
            &&& 0 <= i
            &&& k > 0 ==> i < k
            &&& best >= NEG_INFINITY_KEY
            &&& forall|j: int| 0 <= j < k ==> value_key(#[trigger] values[j]) <= best
            &&& best > NEG_INFINITY_KEY ==> i < k && value_key(values[i]) == best && forall|j: int|
                0 <= j < i ==> value_key(#[trigger] values[j]) < best
            &&& best == NEG_INFINITY_KEY ==> i == 0
        }),
    decreases k,
{
    if k > 0 {
        lemma_choice_among(values, k - 1);
    }
}

/// Are two move sequences the same?
pub fn same_moves(a: &Vec<Move>, b: &Vec<Move>) -> (r: bool)
    ensures
        r == (a@ == b@),
{
    if a.len() != b.len() {
        return false;
    }
    let mut k: usize = 0;
    while k < a.len()
        invariant
            a@.len() == b@.len(),
            k <= a@.len(),
            forall|t: int| 0 <= t < k ==> a@[t] == b@[t],
        decreases a@.len() - k,
    {
        if a[k] != b[k] {
            return false;
        }
        k += 1;
    }
    assert(a@ =~= b@);
    true
}

/// What a state is to the search that meets it.
pub enum Visit {
    /// The state is terminal or has no move: it is scored as it is.
    Leaf,
    /// The table knows the state: one of these moves is chosen by value.
    Known(Vec<Move>),
    /// The table does not know the state: one of these moves is drawn, and a
    /// rollout follows.
    Fresh(Vec<Move>),
}

/// A descent through the tree: the steps taken, and the entry whose
/// all-moves statistics count at this depth.
pub struct Descent {
    path: Vec<Step>,
    tref: transEntry,
}

impl Descent {
    /// The steps taken so far, from the root down.
    pub closed spec fn path(&self) -> Seq<Step> {
        self.path@
    }

    /// The reference entry.
    pub closed spec fn tref(&self) -> TransEntryView {
        self.tref@
    }

    /// The reference entry.
    pub fn reference(&self) -> (e: &transEntry)
        ensures
            e@ == self.tref(),
    {
        &self.tref
    }

    /// The number of steps taken.
    pub fn depth(&self) -> (n: usize)
        ensures
            n == self.path().len(),
    {
        self.path.len()
    }

    /// Takes the step `m` from `st`: the step joins the path, and `m` is played
    /// on `st`.
    pub fn step(&mut self, st: &mut State, m: Move)
        ensures
            final(st)@ == old(st)@.play(m),
            final(self).tref() == old(self).tref(),
            final(self).path().len() == old(self).path().len() + 1,
            final(self).path().drop_last() == old(self).path(),
            final(self).path().last().key@ == old(st)@.seq,
            final(self).path().last().m == m,
    {
        let key = copy_moves(st.seq());
        self.path.push(Step { key, m });
        st.play(m);
        assert(self.path@.drop_last() =~= old(self).path@);
    }
}

/// A transposition table: for each move sequence met, the statistics of the
/// state it leads to. No sequence stands twice in it.
pub struct TransTable {
    nodes: Vec<Node>,
}

impl View for TransTable {
    type V = Map<Seq<Move>, TransEntryView>;

    closed spec fn view(&self) -> Map<Seq<Move>, TransEntryView> {
        nodes_view(self.nodes@)
    }
}

impl TransTable {
    /// What holds of every table: no move sequence stands twice in it.
    #[verifier::type_invariant]
    pub closed spec fn wf(&self) -> bool {
        distinct_keys(self.nodes@)
    }

    /// The table without entries.
    pub fn new() -> (t: TransTable)
        ensures
            t@ == Map::<Seq<Move>, TransEntryView>::empty(),
    {
        let t = TransTable { nodes: Vec::new() };
        assert(t@ =~= Map::<Seq<Move>, TransEntryView>::empty());
        t
    }

    /// The index of `key` in the table, if it has one.
    fn find(&self, key: &Vec<Move>) -> (k: Option<usize>)
        ensures
            k.is_some() == has_key(self.nodes@, key@),
            k.is_some() ==> k.unwrap() < self.nodes@.len() && self.nodes@[k.unwrap() as int].key@
                == key@ && index_of_key(self.nodes@, key@) == k.unwrap(),
    {
        proof {
            use_type_invariant(self);
        }
        let mut k: usize = 0;
        while k < self.nodes.len()
            invariant
                distinct_keys(self.nodes@),
                k <= self.nodes@.len(),
                forall|t: int| 0 <= t < k ==> (#[trigger] self.nodes@[t]).key@ != key@,
            decreases self.nodes@.len() - k,
        {
            if same_moves(&self.nodes[k].key, key) {
                proof {
                    assert(has_key(self.nodes@, key@));
                    let t = index_of_key(self.nodes@, key@);
                    if t < k {
                        assert(self.nodes@[t].key@ != self.nodes@[k as int].key@);
                    } else if t > k {
                        assert(self.nodes@[k as int].key@ != self.nodes@[t].key@);
                    }
                }
                return Some(k);
            }
            k += 1;
        }
        None
    }

    /// The entry under `key`, if there is one.
    pub fn get(&self, key: &Vec<Move>) -> (e: Option<&transEntry>)
        ensures
            e.is_some() == self@.contains_key(key@),
            e.is_some() ==> e.unwrap()@ == self@[key@],
    {
        match self.find(key) {
            Some(k) => Some(&self.nodes[k].entry),
            None => None,
        }
    }

    /// Puts `entry` under `key`, in place of the entry that was there if any.
    pub fn put(&mut self, key: &Vec<Move>, entry: transEntry)
        ensures
            final(self)@ == old(self)@.insert(key@, entry@),
    {
        proof {
            use_type_invariant(&*self);
        }
        let found = self.find(key);
        let ghost before = self.nodes@;
        let node = Node { key: copy_moves(key), entry };
        let mut nodes: Vec<Node> = Vec::new();
        std::mem::swap(&mut nodes, &mut self.nodes);
        match found {
            Some(j) => {
                nodes.set(j, node);
                proof {
                    lemma_nodes_set(before, j as int, nodes@[j as int]);
                }
            },
            None => {
                nodes.push(node);
                proof {
                    lemma_nodes_push(before, nodes@[before.len() as int]);
                }
            },
        }
        self.nodes = nodes;
    }

    /// Takes the result `res` of a rollout that played `seq` into the entry
    /// under `key`, through the move `m`; a table without that entry stays as
    /// it is.
    pub fn visit(&mut self, key: &Vec<Move>, m: Move, res: Score, seq: &Vec<Move>)
        ensures
            final(self)@ == if old(self)@.contains_key(key@) {
                old(self)@.insert(
                    key@,
                    old(self)@[key@].visited(m, res, tail_from(seq@, key@.len() as int)),
                )
            } else {
                old(self)@
            },
    {
        let updated = match self.get(key) {
            Some(e) => {
                let mut entry = e.clone();
                entry.visit(m, res, seq, key.len());
                Some(entry)
            },
            None => None,
        };
        match updated {
            Some(entry) => {
                self.put(key, entry);
            },
            None => {},
        }
    }
}

/// A search with its transposition table.
pub struct GRAVE {
    table: TransTable,
    reference: i32,
    incumbent: Incumbent,
    timeout_ms: i64,
}

impl GRAVE {
    /// The transposition table.
    pub closed spec fn table(&self) -> Map<Seq<Move>, TransEntryView> {
        self.table@
    }

    /// The number of rollouts above which an entry becomes the reference for
    /// the nodes below it.
    pub closed spec fn reference(&self) -> i32 {
        self.reference
    }

    /// The best state seen so far.
    pub closed spec fn incumbent(&self) -> IncumbentView {
        self.incumbent@
    }

    /// The timeout in milliseconds; zero or less for none.
    pub closed spec fn timeout_ms(&self) -> i64 {
        self.timeout_ms
    }

    /// A search that has seen nothing: an empty table, a reference bound of
    /// `-1`, no timeout, and the single-vertex state as its best.
    pub fn new() -> (expe: GRAVE)
        ensures
            expe.table() == Map::<Seq<Move>, TransEntryView>::empty(),
            expe.reference() == -1,
            expe.timeout_ms() == -1,
            expe.incumbent().best_score.key == NEG_INFINITY_KEY,
            expe.incumbent().best_state == StateView::initial(),
    {
        GRAVE {
            table: TransTable::new(),
            reference: -1,
            incumbent: Incumbent::new(State::new()),
            timeout_ms: -1,
        }
    }

    /// Sets the reference bound.
    pub fn set_reference(&mut self, reference: i32)
        ensures
            final(self).reference() == reference,
            final(self).table() == old(self).table(),
            final(self).incumbent() == old(self).incumbent(),
            final(self).timeout_ms() == old(self).timeout_ms(),
    {
        self.reference = reference;
    }

    /// Sets the timeout, in milliseconds.
    pub fn set_timeout(&mut self, timeout_ms: i64)
        ensures
            final(self).timeout_ms() == timeout_ms,
            final(self).table() == old(self).table(),
            final(self).incumbent() == old(self).incumbent(),
            final(self).reference() == old(self).reference(),
    {
        self.timeout_ms = timeout_ms;
    }

    /// The timeout, in milliseconds.
    pub fn timeout(&self) -> (t: i64)
        ensures
            t == self.timeout_ms(),
    {
        self.timeout_ms
    }

    /// The best state seen so far.
    pub fn best_state(&self) -> (s: &State)
        ensures
            s@ == self.incumbent().best_state,
    {
        self.incumbent.best_state()
    }

    /// The best score seen so far.
    pub fn best_score_yet(&self) -> (s: Score)
        ensures
            s == self.incumbent().best_score,
    {
        self.incumbent.best_score()
    }

    /// Begins a rollout from `st`, whose score is `score`.
    pub fn playout(&self, st: State, score: Score) -> (p: Playout)
        ensures
            p@ == (PlayoutView { st: st@, best_state: st@, best_score: score, stopped: false }),
    {
        Playout::open(st, score)
    }

    /// The entry of the state that `key` leads to, if the table has one.
    pub fn entry(&self, key: &Vec<Move>) -> (e: Option<&transEntry>)
        ensures
            e.is_some() == self.table().contains_key(key@),
            e.is_some() ==> e.unwrap()@ == self.table()[key@],
    {
        self.table.get(key)
    }

    /// Begins a descent: no step taken, and the empty entry as reference.
    pub fn begin(&self) -> (d: Descent)
        ensures
            d.path() == Seq::<Step>::empty(),
            d.tref() == TransEntryView::empty(),
    {
        Descent { path: Vec::new(), tref: transEntry::new() }
    }

    /// Meets `st` on the descent `d` and says what it is to the search.
    ///
    /// A state that the table knows becomes the reference for the nodes below
    /// where more rollouts went through it than the reference bound.
    #[allow(non_snake_case)]
    pub fn GRAVE(&self, d: &mut Descent, st: &State) -> (v: Visit)
        ensures
            final(d).path() == old(d).path(),
            ({
                let moves = legal_moves(st@.adj, st@.size_terminal);
                let known = self.table().contains_key(st@.seq);
                if st@.terminal() || moves.len() == 0 {
                    v is Leaf && final(d).tref() == old(d).tref()
                } else if known {
                    &&& v matches Visit::Known(ms)
                    &&& ms@ == moves
                    &&& final(d).tref() == if self.table()[st@.seq].allplayouts
                        > self.reference() {
                        self.table()[st@.seq]
                    } else {
                        old(d).tref()
                    }
                } else {
                    &&& v matches Visit::Fresh(ms)
                    &&& ms@ == moves
                    &&& final(d).tref() == old(d).tref()
                }
            }),
    {
        let moves = st.legal_moves();
        if st.terminal() || moves.len() == 0 {
            return Visit::Leaf;
        }
        match self.table.get(st.seq()) {
            Some(t) => {
                if t.allplayouts() as i128 > self.reference as i128 {
                    d.tref = t.clone();
                }
                Visit::Known(moves)
            },
            None => Visit::Fresh(moves),
        }
    }

    /// The index of the move to play among moves with these values; a move
    /// without a value is one that the reference entry has not seen.
    pub fn select(values: &Vec<Option<Score>>) -> (i: usize)
        ensures
            i == choice(values@),
            values@.len() > 0 ==> i < values@.len(),
    {
        let mut best: i64 = NEG_INFINITY_KEY;
        let mut i: usize = 0;
        let mut k: usize = 0;
        while k < values.len()
            invariant
                k <= values@.len(),
                (i as int, best as int) == choice_among(values@, k as int),
                k > 0 ==> i < k,
                k == 0 ==> i == 0,
            decreases values@.len() - k,
        {
            let key = match values[k] {
                None => INFINITY_KEY,
                Some(s) => s.key,
            };
            if key > best {
                best = key;
                i = k;
            }
            k += 1;
        }
        i
    }

    /// Sends the result `res` of a rollout that played `seq` back up `path`.
    fn back_up(&mut self, path: &Vec<Step>, res: Score, seq: &Vec<Move>)
        ensures
            final(self).table() == backed_up(old(self).table(), path@, res, seq@),
            final(self).incumbent() == old(self).incumbent(),
            final(self).reference() == old(self).reference(),
            final(self).timeout_ms() == old(self).timeout_ms(),
    {
        let mut k: usize = 0;
        assert(path@.take(0) =~= Seq::<Step>::empty());
        while k < path.len()
            invariant
                k <= path@.len(),
                self.table() == backed_up(old(self).table(), path@.take(k as int), res, seq@),
                self.incumbent() == old(self).incumbent(),
                self.reference() == old(self).reference(),
                self.timeout_ms() == old(self).timeout_ms(),
            decreases path@.len() - k,
        {
            let step = &path[k];
            proof {
                assert(path@.take(k + 1).drop_last() =~= path@.take(k as int));
                assert(path@.take(k + 1).last() == path@[k as int]);
            }
            self.table.visit(&step.key, step.m, res, seq);
            k += 1;
        }
        assert(path@.take(k as int) =~= path@);
    }

    /// Ends a descent at a leaf `st`, whose score is `res`: the state is
    /// offered as the best one, and the result goes back up the path.
    pub fn leaf(&mut self, d: Descent, st: &State, res: Score) -> (v: Verdict)
        ensures
            v == verdict_of(old(self).incumbent().best_score, res),
            final(self).incumbent() == old(self).incumbent().offer(st@, res),
            final(self).table() == backed_up(old(self).table(), d.path(), res, st@.seq),
            final(self).reference() == old(self).reference(),
            final(self).timeout_ms() == old(self).timeout_ms(),
    {
        let v = self.incumbent.offer(st, res);
        self.back_up(&d.path, res, st.seq());
        v
    }

    /// Ends a descent at a state `st` that the table did not know: `m` was
    /// drawn and played, the rollout that followed ended in `pl`, whose score
    /// is `res`. The rollout is offered as the best state, `st` gets its entry,
    /// and the result goes back up the path.
    pub fn expand(&mut self, d: Descent, st: &State, m: Move, pl: &State, res: Score) -> (v:
        Verdict)
        ensures
            v == verdict_of(old(self).incumbent().best_score, res),
            final(self).incumbent() == old(self).incumbent().offer(pl@, res),
            final(self).table() == backed_up(
                old(self).table().insert(
                    st@.seq,
                    TransEntryView::fresh(
                        d.tref(),
                        m,
                        res,
                        tail_from(pl@.seq, st@.seq.len() as int),
                    ),
                ),
                d.path(),
                res,
                pl@.seq,
            ),
            final(self).reference() == old(self).reference(),
            final(self).timeout_ms() == old(self).timeout_ms(),
    {
        let v = self.incumbent.offer(pl, res);
        let entry = transEntry::fresh(&d.tref, m, res, pl.seq(), st.seq().len());
        self.table.put(st.seq(), entry);
        self.back_up(&d.path, res, pl.seq());
        v
    }
}

/// A search that has seen nothing, with the reference bound `rf`, which runs
/// for at most `timeout_ms` milliseconds; zero or less for no timeout.
pub fn launch_grave(rf: i32, timeout_ms: i64) -> (expe: GRAVE)
    ensures
        expe.table() == Map::<Seq<Move>, TransEntryView>::empty(),
        expe.reference() == rf,
        expe.timeout_ms() == timeout_ms,
        expe.incumbent().best_score.key == NEG_INFINITY_KEY,
        expe.incumbent().best_state == StateView::initial(),
{
    let mut expe = GRAVE::new();
    expe.set_timeout(timeout_ms);
    expe.set_reference(rf);
    expe
}

/// Replacing the node at index `j` by one of the same key replaces its entry
/// in the table.
proof fn lemma_nodes_set(before: Seq<Node>, j: int, node: Node)
    requires
        distinct_keys(before),
        0 <= j < before.len(),
        node.key@ == before[j].key@,
    ensures
        distinct_keys(before.update(j, node)),
        nodes_view(before.update(j, node)) == nodes_view(before).insert(node.key@, node.entry@),
{
    let after = before.update(j, node);
    assert forall|a: int, b: int| 0 <= a < b < after.len() implies (#[trigger] after[a]).key@ != (
    #[trigger] after[b]).key@ by {
        assert(before[a].key@ != before[b].key@);
    }
    assert forall|x: Seq<Move>| has_key(after, x) == has_key(before, x) by {
        if has_key(before, x) {
            let t = index_of_key(before, x);
            assert(after[t].key@ == x);
        }
        if has_key(after, x) {
            let t = index_of_key(after, x);
            assert(before[t].key@ == x);
        }
    }
    assert forall|x: Seq<Move>| has_key(after, x) implies #[trigger] nodes_view(after)[x]
        == nodes_view(before).insert(node.key@, node.entry@)[x] by {
        let t = index_of_key(after, x);
        let u = index_of_key(before, x);
        assert(before[t].key@ == x);
        if t != u {
            if t < u {
                assert(before[t].key@ != before[u].key@);
            } else {
                assert(before[u].key@ != before[t].key@);
            }
        }
        if x == node.key@ {
            if t != j {
                if t < j {
                    assert(before[t].key@ != before[j].key@);
                } else {
                    assert(before[j].key@ != before[t].key@);
                }
            }
        }
    }
    assert(nodes_view(after) =~= nodes_view(before).insert(node.key@, node.entry@));
}

/// Appending a node whose key is new adds its entry to the table.
proof fn lemma_nodes_push(before: Seq<Node>, node: Node)
    requires
        distinct_keys(before),
        !has_key(before, node.key@),
    ensures
        distinct_keys(before.push(node)),
        nodes_view(before.push(node)) == nodes_view(before).insert(node.key@, node.entry@),
{
    let after = before.push(node);
    let last = before.len() as int;
    assert forall|a: int, b: int| 0 <= a < b < after.len() implies (#[trigger] after[a]).key@ != (
    #[trigger] after[b]).key@ by {
        if b < last {
            assert(before[a].key@ != before[b].key@);
        } else {
            assert(after[a] == before[a]);
            if before[a].key@ == node.key@ {
                assert(has_key(before, node.key@));
            }
        }
    }
    assert(after[last].key@ == node.key@);
    assert forall|x: Seq<Move>| has_key(after, x) == (has_key(before, x) || x == node.key@) by {
        if has_key(before, x) {
            let t = index_of_key(before, x);
            assert(after[t].key@ == x);
        }
        if has_key(after, x) && x != node.key@ {
            let t = index_of_key(after, x);
            assert(before[t].key@ == x);
        }
    }
    assert forall|x: Seq<Move>| has_key(after, x) implies #[trigger] nodes_view(after)[x]
        == nodes_view(before).insert(node.key@, node.entry@)[x] by {
        let t = index_of_key(after, x);
        if x == node.key@ {
            if t != last {
                assert(before[t].key@ == x);
                assert(has_key(before, x));
            }
        } else {
            let u = index_of_key(before, x);
            assert(before[t].key@ == x);
            if t != u {
                if t < u {
                    assert(before[t].key@ != before[u].key@);
                } else {
                    assert(before[u].key@ != before[t].key@);
                }
            }
        }
    }
    assert(nodes_view(after) =~= nodes_view(before).insert(node.key@, node.entry@));
}

} // verus!
