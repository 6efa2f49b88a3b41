//! The search as mathematics: what the state of a best-first search is, what
//! one expansion makes of it, and which ways a search can find.
//!
//! Where several nodes wait with the same least sum, any of them may be
//! expanded next, so a search is described by the runs it can make.

use vstd::prelude::*;
use crate::ai::NodeModel;
use crate::board::{Board, Move, Taquin, TaquinError};

verus! {

/// `x`, or the largest cost there is if `x` is larger.
pub open spec fn capped(x: int) -> int {
    if x > u32::MAX {
        u32::MAX as int
    } else {
        x
    }
}

/// Whether the function `f`, asked how far board `b` is from `goal`, can
/// answer `estimate`.
pub open spec fn answers<F: Fn(&Taquin, &Taquin) -> Result<u32, TaquinError>>(
    f: &F,
    b: Board,
    goal: Board,
    estimate: u32,
) -> bool {
    exists|asked: Taquin, target: Taquin|
        asked.wf() && target.wf() && asked@ == b && target@ == goal && #[trigger] call_ensures(
            f,
            (&asked, &target),
            Ok::<u32, TaquinError>(estimate),
        )
}

/// The state of a search: the nodes met so far, each under its handle, the
/// handles that wait to be expanded, and those that have been.  A node's
/// `cost` is the cost of the way to it, its `heuristic` the sum of that and
/// the estimate of its board.
#[verifier::ext_equal]
pub struct State {
    pub nodes: Seq<NodeModel>,
    pub open: Set<usize>,
    pub settled: Set<usize>,
}

impl State {
    /// The state in which a search for a way from `start` begins: the node
    /// of `start` alone, at cost 0 and with its estimate, waits.
    pub open spec fn begin(start: Board, estimate: u32) -> State {
        State {
            nodes: seq![
                NodeModel {
                    board: start,
                    cost: 0,
                    heuristic: estimate,
                    move_done: None,
                    parent: None,
                },
            ],
            open: Set::empty().insert(0usize),
            settled: Set::empty(),
        }
    }

    /// Whether some node met holds board `b`.
    pub open spec fn met(self, b: Board) -> bool {
        exists|j: int| 0 <= j < self.nodes.len() && (#[trigger] self.nodes[j]).board == b
    }

    /// The handle of a node that holds board `b`.
    pub open spec fn handle_of(self, b: Board) -> int {
        choose|j: int| 0 <= j < self.nodes.len() && (#[trigger] self.nodes[j]).board == b
    }

    /// Whether handle `h` waits with a sum that no waiting handle is below.
    pub open spec fn least(self, h: usize) -> bool {
        &&& self.open.contains(h)
        &&& h < self.nodes.len()
        &&& forall|v: usize| #[trigger]
            self.open.contains(v) ==> self.nodes[h as int].heuristic <= self.nodes[v as int].heuristic
    }

    /// The state with handle `h` taken from those that wait.
    pub open spec fn take(self, h: usize) -> State {
        State { open: self.open.remove(h), ..self }
    }

    /// The state with handle `h` settled.
    pub open spec fn settle(self, h: usize) -> State {
        State { settled: self.settled.insert(h), ..self }
    }

    /// The successor of the node with handle `h` by move `m`, where its
    /// board's estimate is `estimate`: one move further, at a cost 1 higher.
    pub open spec fn child(self, h: usize, m: Move, estimate: u32) -> NodeModel {
        let parent = self.nodes[h as int];
        let cost = capped(parent.cost + 1);
        NodeModel {
            board: parent.board.slide(m),
            cost: cost as u32,
            heuristic: capped(cost + estimate) as u32,
            move_done: Some(m),
            parent: Some(Box::new(parent)),
        }
    }

    /// Whether the successor of the node with handle `h` by move `m` is
    /// taken up: its board has not been met, or waits at a higher cost.
    pub open spec fn takes_up(self, h: usize, m: Move) -> bool {
        let b = self.nodes[h as int].board.slide(m);
        let j = self.handle_of(b);
        !self.met(b) || (self.open.contains(j as usize) && self.nodes[j].cost > capped(
            self.nodes[h as int].cost + 1,
        ))
    }

    /// The state after the successor of the node with handle `h` by move `m`
    /// has been dealt with.  A board not met before gets the next handle and
    /// waits; a board that waits at a higher cost gets the successor in the
    /// place of its node; otherwise nothing changes.
    pub open spec fn receive(self, h: usize, m: Move, estimate: u32) -> State {
        let c = self.child(h, m, estimate);
        let j = self.handle_of(c.board);
        if !self.met(c.board) {
            State {
                nodes: self.nodes.push(c),
                open: self.open.insert(self.nodes.len() as usize),
                ..self
            }
        } else if self.open.contains(j as usize) && self.nodes[j].cost > c.cost {
            State { nodes: self.nodes.update(j, c), ..self }
        } else {
            self
        }
    }

    /// The state after the successors of the node with handle `h` by
    /// `moves` have been dealt with in order, with `estimates` for their
    /// boards.
    pub open spec fn receive_all(self, h: usize, moves: Seq<Move>, estimates: Seq<u32>) -> State
        decreases moves.len(),
    {
        if moves.len() == 0 {
            self
        } else {
            self.receive_all(h, moves.drop_last(), estimates.drop_last()).receive(
                h,
                moves.last(),
                estimates.last(),
            )
        }
    }

    /// Whether `estimates` are answers of `f` wherever a successor of the
    /// node with handle `h` by `moves` is taken up.  Where one is not, `f`
    /// is not asked, and the estimate there plays no part.
    pub open spec fn heeds<F: Fn(&Taquin, &Taquin) -> Result<u32, TaquinError>>(
        self,
        h: usize,
        moves: Seq<Move>,
        estimates: Seq<u32>,
        f: &F,
        goal: Board,
    ) -> bool
        decreases moves.len(),
    {
        &&& estimates.len() == moves.len()
        &&& moves.len() > 0 ==> {
            &&& self.heeds(h, moves.drop_last(), estimates.drop_last(), f, goal)
            &&& self.receive_all(h, moves.drop_last(), estimates.drop_last()).takes_up(
                h,
                moves.last(),
            ) ==> answers(
                f,
                self.nodes[h as int].board.slide(moves.last()),
                goal,
                estimates.last(),
            )
        }
    }

    /// The state after the node with handle `h` has been expanded: it no
    /// longer waits, its successors by the moves open on its board have
    /// been dealt with in the order in which the board offers them, and it
    /// is settled.
    pub open spec fn expand(self, h: usize, estimates: Seq<u32>) -> State {
        self.take(h).receive_all(h, self.nodes[h as int].board.available(), estimates).settle(h)
    }

    /// The state after a search that began on `start` with estimate `first`
    /// has expanded the handles `picks` in order.
    pub open spec fn run(start: Board, first: u32, picks: Seq<usize>, estimates: Seq<Seq<u32>>) -> State
        decreases picks.len(),
    {
        if picks.len() == 0 {
            State::begin(start, first)
        } else {
            State::run(start, first, picks.drop_last(), estimates.drop_last()).expand(
                picks.last(),
                estimates.last(),
            )
        }
    }

    /// Whether expanding `picks` in order is a run of the search for `goal`
    /// with the estimates of `f`: each handle expanded waits with a least
    /// sum, its board is not `goal`, and the estimates used are answers of
    /// `f`.
    pub open spec fn lawful<F: Fn(&Taquin, &Taquin) -> Result<u32, TaquinError>>(
        start: Board,
        goal: Board,
        f: &F,
        first: u32,
        picks: Seq<usize>,
        estimates: Seq<Seq<u32>>,
    ) -> bool
        decreases picks.len(),
    {
        &&& estimates.len() == picks.len()
        &&& answers(f, start, goal, first)
        &&& picks.len() > 0 ==> {
            let before = State::run(start, first, picks.drop_last(), estimates.drop_last());
            let h = picks.last();
            &&& State::lawful(start, goal, f, first, picks.drop_last(), estimates.drop_last())
            &&& before.least(h)
            &&& before.nodes[h as int].board != goal
            &&& before.take(h).heeds(
                h,
                before.nodes[h as int].board.available(),
                estimates.last(),
                f,
                goal,
            )
        }
    }
}

/// Whether the run of a search from `start` for `goal` that expands `picks`
/// ends on handle `h` and gives `path`: the run is lawful, and after it the
/// node with handle `h` waits with a least sum, holds `goal`, and has `path`
/// as the moves recorded on the way to it.
pub open spec fn ends_with<F: Fn(&Taquin, &Taquin) -> Result<u32, TaquinError>>(
    start: Board,
    goal: Board,
    f: &F,
    first: u32,
    picks: Seq<usize>,
    estimates: Seq<Seq<u32>>,
    h: usize,
    path: Seq<Move>,
) -> bool {
    let last = State::run(start, first, picks, estimates);
    &&& State::lawful(start, goal, f, first, picks, estimates)
    &&& last.least(h)
    &&& last.nodes[h as int].board == goal
    &&& last.nodes[h as int].path() == path
}

/// Whether a best-first search from `start` for `goal` with the estimates
/// of `f` can find `path`: some run of expansions ends with it.
pub open spec fn finds<F: Fn(&Taquin, &Taquin) -> Result<u32, TaquinError>>(
    start: Board,
    goal: Board,
    f: &F,
    path: Seq<Move>,
) -> bool {
    exists|first: u32, picks: Seq<usize>, estimates: Seq<Seq<u32>>, h: usize| #[trigger]
        ends_with(start, goal, f, first, picks, estimates, h, path)
}

} // verus!
