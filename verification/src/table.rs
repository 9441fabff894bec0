//! Statistics by move: for each move the scores of the rollouts that were
//! credited to it, oldest first.

use vstd::prelude::*;
use crate::graph::Move;
use crate::score::Score;

verus! {

/// The rollouts credited to one move.
struct MoveStats {
    m: Move,
    outcomes: Vec<Score>,
}

/// A table from moves to the scores credited to them. The number of scores
/// is the number of rollouts, and their sum in order is what the rollouts won.
pub struct MoveTable {
    entries: Vec<MoveStats>,
}

/// Does `m` stand among `entries`?
spec fn has_move(entries: Seq<MoveStats>, m: Move) -> bool {
    exists|k: int| 0 <= k < entries.len() && (#[trigger] entries[k]).m == m
}

/// An index at which `m` stands among `entries`.
spec fn index_of_move(entries: Seq<MoveStats>, m: Move) -> int {
    choose|k: int| 0 <= k < entries.len() && (#[trigger] entries[k]).m == m
}

/// No move stands twice among `entries`.
spec fn distinct_moves(entries: Seq<MoveStats>) -> bool {
    forall|i: int, j: int|
        0 <= i < j < entries.len() ==> (#[trigger] entries[i]).m != (#[trigger] entries[j]).m
}

/// The table that `entries` stand for.
spec fn table_of(entries: Seq<MoveStats>) -> Map<Move, Seq<Score>> {
    Map::new(
        |m: Move| has_move(entries, m),
        |m: Move| entries[index_of_move(entries, m)].outcomes@,
    )
}

/// The scores credited to `m` in `t`: none where `t` does not know the move.
pub open spec fn outcomes_of(t: Map<Move, Seq<Score>>, m: Move) -> Seq<Score> {
    if t.contains_key(m) {
        t[m]
    } else {
        Seq::empty()
    }
}

/// `t` with `res` credited to `m`.
pub open spec fn credit(t: Map<Move, Seq<Score>>, m: Move, res: Score) -> Map<Move, Seq<Score>> {
    t.insert(m, outcomes_of(t, m).push(res))
}

/// `t` with `res` credited to each move of `moves` in turn; a move that
/// occurs twice is credited twice.
pub open spec fn credit_all(t: Map<Move, Seq<Score>>, moves: Seq<Move>, res: Score) -> Map<
    Move,
    Seq<Score>,
>
    decreases moves.len(),
{
    if moves.len() == 0 {
        t
    } else {
        credit(credit_all(t, moves.drop_last(), res), moves.last(), res)
    }
}

impl View for MoveTable {
    type V = Map<Move, Seq<Score>>;

    closed spec fn view(&self) -> Map<Move, Seq<Score>> {
        table_of(self.entries@)
    }
}

/// A copy of a list of scores.
pub fn copy_scores(src: &Vec<Score>) -> (v: Vec<Score>)
    ensures
        v@ == src@,
{
    let mut v: Vec<Score> = Vec::new();
    let mut i: usize = 0;
    while i < src.len()
        invariant
            i <= src@.len(),
            v@ == src@.take(i as int),
        decreases src@.len() - i,
    {
        v.push(src[i]);
        i += 1;
        assert(v@ =~= src@.take(i as int));
    }
    assert(v@ =~= src@);
    v
}

impl MoveTable {
    /// What holds of every table: no move stands twice in it.
    #[verifier::type_invariant]
    pub closed spec fn wf(&self) -> bool {
        distinct_moves(self.entries@)
    }

    /// The table that knows no move.
    pub fn new() -> (t: MoveTable)
        ensures
            t@ == Map::<Move, Seq<Score>>::empty(),
    {
        let t = MoveTable { entries: Vec::new() };
        assert(t@ =~= Map::<Move, Seq<Score>>::empty());
        t
    }

    /// The index of `m` in the table, if it has one.
    fn find(&self, m: Move) -> (k: Option<usize>)
        ensures
            k.is_some() == has_move(self.entries@, m),
            k.is_some() ==> k.unwrap() < self.entries@.len() && self.entries@[k.unwrap() as int].m
                == m && index_of_move(self.entries@, m) == k.unwrap(),
    {
        proof {
            use_type_invariant(self);
        }
        let mut k: usize = 0;
        while k < self.entries.len()
            invariant
                distinct_moves(self.entries@),
                k <= self.entries@.len(),
                forall|t: int| 0 <= t < k ==> (#[trigger] self.entries@[t]).m != m,
            decreases self.entries@.len() - k,
        {
            if self.entries[k].m == m {
                proof {
                    assert(has_move(self.entries@, m));
                    let t = index_of_move(self.entries@, m);
                    if t < k {
                        assert(self.entries@[t].m != self.entries@[k as int].m);
                    } else if t > k {
                        assert(self.entries@[k as int].m != self.entries@[t].m);
                    }
                }
                return Some(k);
            }
            k += 1;
        }
        None
    }

    /// The scores credited to `m`, if the table knows the move.
    pub fn get(&self, m: Move) -> (r: Option<&Vec<Score>>)
        ensures
            r.is_some() == self@.contains_key(m),
            r.is_some() ==> r.unwrap()@ == self@[m],
    {
        match self.find(m) {
            Some(k) => Some(&self.entries[k].outcomes),
            None => None,
        }
    }

    /// The number of rollouts credited to `m`.
    pub fn playouts(&self, m: Move) -> (n: usize)
        ensures
            n == outcomes_of(self@, m).len(),
    {
        match self.find(m) {
            Some(k) => self.entries[k].outcomes.len(),
            None => 0,
        }
    }

    /// Credits `res` to `m`.
    pub fn credit(&mut self, m: Move, res: Score)
        ensures
            final(self)@ == credit(old(self)@, m, res),
    {
        proof {
            use_type_invariant(&*self);
        }
        let found = self.find(m);
        let ghost before = self.entries@;
        let mut entries: Vec<MoveStats> = Vec::new();
        std::mem::swap(&mut entries, &mut self.entries);
        match found {
            Some(k) => {
                let mut outcomes = copy_scores(&entries[k].outcomes);
                outcomes.push(res);
                entries.set(k, MoveStats { m, outcomes });
                proof {
                    let after = entries@;
                    assert forall|i: int, j: int| 0 <= i < j < after.len() implies (
                    #[trigger] after[i]).m != (#[trigger] after[j]).m by {
                        assert(before[i].m != before[j].m);
                    }
                    assert forall|x: Move| has_move(after, x) == has_move(before, x) by {
                        if has_move(before, x) {
                            let t = index_of_move(before, x);
                            assert(after[t].m == x);
                        }
                        if has_move(after, x) {
                            let t = index_of_move(after, x);
                            assert(before[t].m == x);
                        }
                    }
                    assert forall|x: Move| has_move(after, x) implies #[trigger] table_of(after)[x]
                        == credit(table_of(before), m, res)[x] by {
                        let t = index_of_move(after, x);
                        let u = index_of_move(before, x);
                        assert(before[t].m == x);
                        if t != u {
                            assert(before[t].m != before[u].m);
                        }
                    }
                    assert(table_of(after) =~= credit(table_of(before), m, res));
                }
            },
            None => {
                let mut outcomes: Vec<Score> = Vec::new();
                outcomes.push(res);
                entries.push(MoveStats { m, outcomes });
                proof {
                    let after = entries@;
                    let last = before.len() as int;
                    assert(after[last].m == m);
                    assert forall|i: int, j: int| 0 <= i < j < after.len() implies (
                    #[trigger] after[i]).m != (#[trigger] after[j]).m by {
                        if j < last {
                            assert(before[i].m != before[j].m);
                        } else {
                            assert(after[i] == before[i]);
                        }
                    }
                    assert forall|x: Move| has_move(after, x) == (has_move(before, x) || x == m) by {
                        if has_move(before, x) {
                            let t = index_of_move(before, x);
                            assert(after[t].m == x);
                        }
                        if has_move(after, x) && x != m {
                            let t = index_of_move(after, x);
                            assert(before[t].m == x);
                        }
                    }
                    assert forall|x: Move| has_move(after, x) implies #[trigger] table_of(after)[x]
                        == credit(table_of(before), m, res)[x] by {
                        let t = index_of_move(after, x);
                        if x == m {
                            if t != last {
                                assert(before[t].m == m);
                            }
                            assert(after[t].outcomes@ =~= Seq::<Score>::empty().push(res));
                        } else {
                            let u = index_of_move(before, x);
                            assert(before[t].m == x);
                            if t != u {
                                assert(before[t].m != before[u].m);
                            }
                        }
                    }
                    assert(table_of(after) =~= credit(table_of(before), m, res));
                }
            },
        }
        self.entries = entries;
    }

    /// Credits `res` to each move of `moves` from index `from` on, in order.
    pub fn credit_tail(&mut self, moves: &Vec<Move>, from: usize, res: Score)
        ensures
            final(self)@ == credit_all(old(self)@, tail_from(moves@, from as int), res),
    {
        let ghost tail = tail_from(moves@, from as int);
        if from >= moves.len() {
            return ;
        }
        let mut k: usize = from;
        assert(tail.take(0) =~= Seq::<Move>::empty());
        while k < moves.len()
            invariant
                from <= k <= moves@.len(),
                tail == moves@.subrange(from as int, moves@.len() as int),
                self@ == credit_all(old(self)@, tail.take(k - from), res),
            decreases moves@.len() - k,
        {
            self.credit(moves[k], res);
            proof {
                assert(tail.take(k + 1 - from).drop_last() =~= tail.take(k - from));
                assert(tail.take(k + 1 - from).last() == moves@[k as int]);
            }
            k += 1;
        }
        assert(tail.take(k - from) =~= tail);
    }
}

/// The moves of `moves` from index `from` on: none where `from` is past the
/// end.
pub open spec fn tail_from(moves: Seq<Move>, from: int) -> Seq<Move> {
    if 0 <= from <= moves.len() {
        moves.subrange(from, moves.len() as int)
    } else {
        Seq::empty()
    }
}

impl Clone for MoveTable {
    /// A copy that stands for the same table.
    fn clone(&self) -> (t: MoveTable)
        ensures
            t@ == self@,
    {
        proof {
            use_type_invariant(self);
        }
        let mut entries: Vec<MoveStats> = Vec::new();
        let mut k: usize = 0;
        while k < self.entries.len()
            invariant
                k <= self.entries@.len(),
                entries@.len() == k,
                forall|t: int|
                    0 <= t < k ==> (#[trigger] entries@[t]).m == self.entries@[t].m
                        && entries@[t].outcomes@ == self.entries@[t].outcomes@,
            decreases self.entries@.len() - k,
        {
            let e = &self.entries[k];
            entries.push(MoveStats { m: e.m, outcomes: copy_scores(&e.outcomes) });
            k += 1;
        }
        proof {
            let a = entries@;
            let b = self.entries@;
            assert forall|i: int, j: int| 0 <= i < j < a.len() implies (#[trigger] a[i]).m != (
            #[trigger] a[j]).m by {
                assert(b[i].m != b[j].m);
            }
            assert forall|x: Move| has_move(a, x) == has_move(b, x) by {
                if has_move(a, x) {
                    let i = index_of_move(a, x);
                    assert(b[i].m == x);
                }
                if has_move(b, x) {
                    let i = index_of_move(b, x);
                    assert(a[i].m == x);
                }
            }
            assert forall|x: Move| has_move(a, x) implies #[trigger] table_of(a)[x] == table_of(
                b,
            )[x] by {
                let i = index_of_move(a, x);
                let j = index_of_move(b, x);
                assert(b[i].m == x);
                if i != j {
                    assert(b[i].m != b[j].m);
                }
            }
            assert(table_of(a) =~= table_of(b));
        }
        MoveTable { entries }
    }
}

} // verus!
