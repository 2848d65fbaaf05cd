use vstd::prelude::*;
use crate::moves::Move;

verus! {

/// A "butterfly" history table: for every from/to square pair, tracks how
/// often a quiet move between them has caused a beta cutoff, weighted by
/// how deep the cutoff happened (a cutoff found deep in the tree is a
/// stronger signal than one found near the leaves). Used to order quiet
/// moves that aren't captures or killers.
pub struct HistoryTable {
    scores: Vec<Vec<i32>>,
}

impl View for HistoryTable {
    type V = Seq<Seq<i32>>;

    closed spec fn view(&self) -> Seq<Seq<i32>> {
        Seq::new(self.scores@.len(), |i: int| self.scores@[i]@)
    }
}

impl HistoryTable {
    /// The table has a row of 64 scores for each of the 64 origin squares,
    /// and no score is negative.
    pub open spec fn wf(&self) -> bool {
        &&& self@.len() == 64
        &&& forall|i: int| 0 <= i < 64 ==> (#[trigger] self@[i]).len() == 64
        &&& forall|i: int, j: int| 0 <= i < 64 && 0 <= j < 64 ==> 0 <= #[trigger] self@[i][j]
    }

    /// The score of the move from square index `from` to `to`.
    pub open spec fn score_of(&self, from: int, to: int) -> int {
        self@[from][to] as int
    }

    pub fn new() -> (t: Self)
        ensures
            t.wf(),
            forall|i: int, j: int| 0 <= i < 64 && 0 <= j < 64 ==> #[trigger] t.score_of(i, j) == 0,
    {
        let mut scores: Vec<Vec<i32>> = Vec::new();
        let mut i: usize = 0;
        while i < 64
            invariant
                i <= 64,
                scores@.len() == i,
                forall|a: int| 0 <= a < i ==> (#[trigger] scores@[a])@.len() == 64,
                forall|a: int, b: int| 0 <= a < i && 0 <= b < 64 ==> #[trigger] scores@[a]@[b] == 0,
            decreases 64 - i,
        {
            let mut row: Vec<i32> = Vec::new();
            let mut j: usize = 0;
            while j < 64
                invariant
                    j <= 64,
                    row@.len() == j,
                    forall|b: int| 0 <= b < j ==> row@[b] == 0,
                decreases 64 - j,
            {
                row.push(0);
                j += 1;
            }
            scores.push(row);
            i += 1;
        }
        HistoryTable { scores }
    }

    pub fn get(&self, mv: Move) -> (s: i32)
        requires
            self.wf(),
            mv.valid(),
        ensures
            s == self.score_of(mv.from.idx(), mv.to.idx()),
    {
        let f = mv.from.index();
        let t = mv.to.index();
        assert(self@[f as int] == self.scores@[f as int]@);
        self.scores[f][t]
    }

    /// Rewards `mv` for causing a cutoff `depth` plies from a leaf.
    pub fn record(&mut self, mv: Move, depth: u32)
        requires
            old(self).wf(),
            mv.valid(),
            depth * depth <= u32::MAX,
            old(self).score_of(mv.from.idx(), mv.to.idx()) + depth * depth <= i32::MAX,
        ensures
            final(self).wf(),
            forall|i: int, j: int| 0 <= i < 64 && 0 <= j < 64 ==> #[trigger] final(self).score_of(i, j) == if i
                == mv.from.idx() && j == mv.to.idx() {
                old(self).score_of(i, j) + (depth * depth) as i32
            } else {
                old(self).score_of(i, j)
            },
    {
        let f = mv.from.index();
        let t = mv.to.index();
        assert(self@[f as int] == self.scores@[f as int]@);
        let bonus = (depth * depth) as i32;
        let mut row = self.scores[f].clone();
        let cur = row[t];
        row.set(t, cur + bonus);
        self.scores.set(f, row);
        proof {
            assert forall|i: int| 0 <= i < 64 implies #[trigger] self@[i] == if i == f { old(self)@[i].update(t as int, (cur + bonus) as i32) } else { old(self)@[i] } by {
                assert(self@[i] == self.scores@[i]@);
                assert(old(self)@[i] == old(self).scores@[i]@);
            }
        }
    }
}

impl Default for HistoryTable {
    fn default() -> (t: Self)
        ensures
            t.wf(),
            forall|i: int, j: int| 0 <= i < 64 && 0 <= j < 64 ==> #[trigger] t.score_of(i, j) == 0,
    {
        Self::new()
    }
}

} // verus!
