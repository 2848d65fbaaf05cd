use vstd::prelude::*;
use crate::moves::Move;

verus! {

/// Two killer-quiet-move slots per search ply.
///
/// A "killer" is a quiet move that caused a beta cutoff at a given ply in
/// one branch of the tree; trying it first in sibling branches at the same
/// ply is cheap and, since the position is similar, often cuts off again.
/// Keeping the two most recent killers (rather than just one) catches the
/// common case where a node has two independently strong quiet replies.
pub struct KillerMoves {
    slots: Vec<[Option<Move>; 2]>,
}

impl View for KillerMoves {
    type V = Seq<Seq<Option<Move>>>;

    closed spec fn view(&self) -> Seq<Seq<Option<Move>>> {
        Seq::new(self.slots@.len(), |i: int| self.slots@[i]@)
    }
}

impl KillerMoves {
    /// The killers recorded for `ply`, most recent first; none for a ply
    /// never recorded.
    pub open spec fn killers_at(&self, ply: int) -> Seq<Option<Move>> {
        if 0 <= ply < self@.len() {
            self@[ply]
        } else {
            seq![None, None]
        }
    }

    /// The two killers of a ply: an empty front slot means an empty back
    /// slot, and a move is never kept in both.
    pub open spec fn distinct_pair(ks: Seq<Option<Move>>) -> bool {
        &&& ks.len() == 2
        &&& ks[0] is None ==> ks[1] is None
        &&& ks[0] is Some ==> ks[0] != ks[1]
    }

    /// Every recorded ply holds two distinct killer slots.
    pub open spec fn wf(&self) -> bool {
        forall|i: int| 0 <= i < self@.len() ==> KillerMoves::distinct_pair(#[trigger] self@[i])
    }

    /// The two killers kept for any ply are never the same move, and a
    /// back killer is only kept behind a front one.
    pub proof fn lemma_killers_distinct(k: KillerMoves, ply: int)
        requires
            k.wf(),
        ensures
            KillerMoves::distinct_pair(k.killers_at(ply)),
    {
    }

    pub fn new() -> (k: Self)
        ensures
            k.wf(),
            forall|ply: int| #[trigger] k.killers_at(ply) == seq![None::<Move>, None::<Move>],
    {
        let k = KillerMoves { slots: Vec::new() };
        assert(k@.len() == 0);
        k
    }

    /// The killer moves recorded for `ply`, most recent first.
    pub fn get(&self, ply: u32) -> (ks: [Option<Move>; 2])
        requires
            self.wf(),
        ensures
            ks@ == self.killers_at(ply as int),
            KillerMoves::distinct_pair(ks@),
    {
        let p = ply as usize;
        if p < self.slots.len() {
            assert(self@[p as int] == self.slots@[p as int]@);
            self.slots[p]
        } else {
            let none: [Option<Move>; 2] = [None, None];
            assert(none@ =~= seq![None::<Move>, None::<Move>]);
            none
        }
    }

    /// Records `mv` as a killer at `ply`, promoting it to the front slot.
    /// A move already stored at this ply is not duplicated into both slots.
    pub fn store(&mut self, ply: u32, mv: Move)
        requires
            old(self).wf(),
        ensures
            final(self).wf(),
            forall|p: int| p != ply ==> #[trigger] final(self).killers_at(p) == old(self).killers_at(p),
            final(self).killers_at(ply as int) == if old(self).killers_at(ply as int)[0] == Some(mv) {
                old(self).killers_at(ply as int)
            } else {
                seq![Some(mv), old(self).killers_at(ply as int)[0]]
            },
    {
        let ply = ply as usize;
        let ghost before = *old(self);
        while self.slots.len() <= ply
            invariant
                self.wf(),
                forall|p: int| #[trigger] self.killers_at(p) == before.killers_at(p),
                self@.len() >= before@.len(),
            decreases ply + 1 - self.slots.len(),
        {
            let ghost prev = *self;
            self.slots.push([None, None]);
            proof {
                assert forall|i: int| 0 <= i < self@.len() implies KillerMoves::distinct_pair(#[trigger] self@[i]) by {
                    assert(self@[i] == self.slots@[i]@);
                    if i < prev@.len() {
                        assert(prev@[i] == prev.slots@[i]@);
                    }
                }
                assert forall|p: int| #[trigger] self.killers_at(p) == before.killers_at(p) by {
                    assert(self.killers_at(p) == prev.killers_at(p)) by {
                        if 0 <= p < self@.len() {
                            assert(self@[p] == self.slots@[p]@);
                            if p < prev@.len() {
                                assert(prev@[p] == prev.slots@[p]@);
                            } else {
                                assert(self.slots@[p]@ =~= seq![None::<Move>, None::<Move>]);
                            }
                        }
                    }
                }
            }
        }
        let mut slot = self.slots[ply];
        assert(self@[ply as int] == self.slots@[ply as int]@);
        if slot[0] == Some(mv) {
            return;
        }
        let first = slot[0];
        slot[1] = first;
        slot[0] = Some(mv);
        let ghost mid = *self;
        self.slots.set(ply, slot);
        proof {
            assert forall|i: int| 0 <= i < self@.len() implies KillerMoves::distinct_pair(#[trigger] self@[i]) by {
                assert(self@[i] == self.slots@[i]@);
                assert(mid@[i] == mid.slots@[i]@);
            }
            assert forall|p: int| p != ply implies #[trigger] self.killers_at(p) == before.killers_at(p) by {
                if 0 <= p < self@.len() {
                    assert(self@[p] == self.slots@[p]@);
                    assert(mid@[p] == mid.slots@[p]@);
                    assert(mid.killers_at(p) == before.killers_at(p));
                }
            }
            assert(mid.killers_at(ply as int) == before.killers_at(ply as int));
            assert(self@[ply as int] == self.slots@[ply as int]@);
            assert(self.killers_at(ply as int) =~= seq![Some(mv), before.killers_at(ply as int)[0]]);
        }
    }
}

impl Default for KillerMoves {
    fn default() -> (k: Self)
        ensures
            k.wf(),
            forall|ply: int| #[trigger] k.killers_at(ply) == seq![None::<Move>, None::<Move>],
    {
        Self::new()
    }
}

} // verus!
