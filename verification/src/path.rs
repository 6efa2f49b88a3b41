//! Sequences of moves: what it means to play one on a board, and which
//! boards can be reached from which.

use vstd::prelude::*;
use crate::board::{Board, Move};

verus! {

/// Whether no move of `path` undoes the move before it.
pub open spec fn no_undo(path: Seq<Move>) -> bool {
    forall|i: int| 0 <= i < path.len() - 1 ==> path[i + 1] != (#[trigger] path[i]).reverse()
}

impl Board {
    /// The board after the moves of `path` have been played in order.
    pub open spec fn play(self, path: Seq<Move>) -> Board
        decreases path.len(),
    {
        if path.len() == 0 {
            self
        } else {
            self.play(path.drop_last()).slide(path.last())
        }
    }

    /// Whether each move of `path`, played in order, keeps the blank on the
    /// grid.
    pub open spec fn playable(self, path: Seq<Move>) -> bool
        decreases path.len(),
    {
        path.len() == 0 || (self.playable(path.drop_last()) && self.play(
            path.drop_last(),
        ).can_move(path.last()))
    }

    /// Whether `path` is legal on this board and ends on `goal`.
    pub open spec fn leads_to(self, path: Seq<Move>, goal: Board) -> bool {
        self.playable(path) && self.play(path) == goal
    }

    /// Whether some legal sequence of moves turns this board into `goal`.
    pub open spec fn reaches(self, goal: Board) -> bool {
        exists|path: Seq<Move>| self.leads_to(path, goal)
    }

    /// Whether some legal sequence of `len` moves turns this board into
    /// `goal`.
    pub open spec fn walks_to(self, goal: Board, len: nat) -> bool {
        exists|path: Seq<Move>| path.len() == len && #[trigger] self.leads_to(path, goal)
    }

    /// Undoing a legal move is legal and gives the board back.
    pub proof fn lemma_slide_back(self, m: Move)
        requires
            self.wf(),
            self.can_move(m),
        ensures
            self.slide(m).can_move(m.reverse()),
            self.slide(m).slide(m.reverse()) == self,
    {
        let b = self.slide(m);
        let r = b.slide(m.reverse());
        assert(self.square());
        assert(r.cells.len() == self.cells.len());
        assert forall|x: int| 0 <= x < self.cells.len() implies #[trigger] r.cells[x]
            =~= self.cells[x] by {
            assert(self.cells[x].len() == self.size());
            assert(b.cells[x].len() == self.size());
        }
        assert(r.cells =~= self.cells);
    }

    /// The moves that undo `path`: its moves from the last to the first, each
    /// reversed.
    pub open spec fn undo(path: Seq<Move>) -> Seq<Move> {
        Seq::new(path.len(), |i: int| path[path.len() - 1 - i].reverse())
    }

    /// A way to a board followed by a way on from there is a way.
    pub proof fn lemma_ways_join(self, first: Seq<Move>, mid: Board, second: Seq<Move>, goal: Board)
        requires
            self.leads_to(first, mid),
            mid.leads_to(second, goal),
        ensures
            self.leads_to(first + second, goal),
        decreases second.len(),
    {
        if second.len() == 0 {
            assert(first + second =~= first);
        } else {
            self.lemma_ways_join(first, mid, second.drop_last(), mid.play(second.drop_last()));
            assert((first + second).drop_last() =~= first + second.drop_last());
        }
    }

    /// Where a legal sequence of moves leads, the moves that undo it lead
    /// back: a board that reaches another can be reached from it.
    pub proof fn lemma_way_back(self, path: Seq<Move>, goal: Board)
        requires
            self.wf(),
            self.leads_to(path, goal),
        ensures
            goal.leads_to(Board::undo(path), self),
            goal.reaches(self),
        decreases path.len(),
    {
        if path.len() == 0 {
            assert(Board::undo(path) =~= Seq::<Move>::empty());
        } else {
            let rest = path.drop_last();
            let m = path.last();
            let mid = self.play(rest);
            self.lemma_play_wf(rest);
            self.lemma_way_back(rest, mid);
            mid.lemma_slide_back(m);
            let step = seq![m.reverse()];
            assert(step =~= Seq::<Move>::empty().push(m.reverse()));
            goal.lemma_play_push(Seq::<Move>::empty(), m.reverse());
            assert(goal.leads_to(step, mid));
            goal.lemma_ways_join(step, mid, Board::undo(rest), self);
            assert(Board::undo(path) =~= step + Board::undo(rest));
        }
    }

    /// A legal sequence of moves leaves a well-formed board well formed and
    /// of the same side.
    pub proof fn lemma_play_wf(self, path: Seq<Move>)
        requires
            self.wf(),
            self.playable(path),
        ensures
            self.play(path).wf(),
            self.play(path).size() == self.size(),
        decreases path.len(),
    {
        if path.len() > 0 {
            self.lemma_play_wf(path.drop_last());
            self.play(path.drop_last()).lemma_slide_wf(path.last());
        }
    }

    /// The first `i` moves of a legal sequence are a legal sequence, and the
    /// move after them is legal on the board they make.
    pub proof fn lemma_prefix(self, path: Seq<Move>, i: int)
        requires
            self.playable(path),
            0 <= i <= path.len(),
        ensures
            self.playable(path.take(i)),
            i < path.len() ==> self.play(path.take(i)).can_move(path[i]) && self.play(
                path.take(i + 1),
            ) == self.play(path.take(i)).slide(path[i]),
        decreases path.len() - i,
    {
        if i == path.len() {
            assert(path.take(i) =~= path);
        } else {
            self.lemma_prefix(path, i + 1);
            assert(path.take(i + 1).drop_last() =~= path.take(i));
        }
    }

    /// Playing one more legal move after a legal sequence is playing the
    /// longer sequence.
    pub proof fn lemma_play_push(self, path: Seq<Move>, m: Move)
        requires
            self.playable(path),
            self.play(path).can_move(m),
        ensures
            self.playable(path.push(m)),
            self.play(path.push(m)) == self.play(path).slide(m),
    {
        assert(path.push(m).drop_last() =~= path);
    }
}

} // verus!
