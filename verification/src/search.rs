//! Best-first search for a sequence of moves from one board to another.

use vstd::prelude::*;
use std::cmp::Reverse;
use std::collections::HashSet;
use priority_queue::PriorityQueue;
use crate::ai::{Node, NodeModel};
use crate::arena::{known, Arena};
use crate::best_first::{answers, capped, ends_with, finds, State};
use crate::board::{Board, Move, Taquin, TaquinError};
use crate::path::no_undo;
use crate::heuristic::{computes, consistent, estimates, lemma_consistent_along, steady};
use crate::frontier::{
    frontier_entries,
    frontier_get,
    frontier_is_empty,
    frontier_new,
    frontier_pop,
    frontier_push,
};

verus! {

broadcast use vstd::std_specs::hash::group_hash_axioms;

/// Boards that hold `start`, and with each of their boards all that one
/// legal move makes of it, hold every board that `start` reaches.
proof fn lemma_closed_under_moves(boards: Seq<Board>, start: Board, path: Seq<Move>)
    requires
        known(boards, start),
        forall|i: int, m: Move|
            0 <= i < boards.len() && #[trigger] boards[i].can_move(m) ==> known(
                boards,
                boards[i].slide(m),
            ),
        start.playable(path),
    ensures
        known(boards, start.play(path)),
    decreases path.len(),
{
    if path.len() > 0 {
        lemma_closed_under_moves(boards, start, path.drop_last());
        let mid = start.play(path.drop_last());
        let i = choose|i: int| 0 <= i < boards.len() && #[trigger] boards[i] == mid;
        assert(boards[i].can_move(path.last()));
    }
}

/// A board that is among some boards is among any that begin with them.
proof fn lemma_known_grows(before: Seq<Board>, after: Seq<Board>, b: Board)
    requires
        before.len() <= after.len(),
        forall|i: int| 0 <= i < before.len() ==> #[trigger] after[i] == before[i],
        known(before, b),
    ensures
        known(after, b),
{
    let i = choose|i: int| 0 <= i < before.len() && #[trigger] before[i] == b;
    assert(after[i] == b);
}

/// A node that grew from a well-formed board has a board of the same side,
/// which its recorded moves make of that board.
proof fn lemma_grown(node: NodeModel, start: Board)
    requires
        start.wf(),
        node.grown_from(start),
    ensures
        node.board.wf(),
        node.board.size() == start.size(),
        start.leads_to(node.path(), node.board),
        node.path().len() == node.depth(),
{
    node.lemma_linked_path();
    start.lemma_play_wf(node.path());
}

/// A lawful run goes on lawfully when a handle that waits with a least sum
/// and does not hold the goal is expanded with estimates that are answers.
proof fn lemma_run_goes_on<F: Fn(&Taquin, &Taquin) -> Result<u32, TaquinError>>(
    start: Board,
    goal: Board,
    f: &F,
    first: u32,
    picks: Seq<usize>,
    book: Seq<Seq<u32>>,
    cur: usize,
    ests: Seq<u32>,
)
    requires
        State::lawful(start, goal, f, first, picks, book),
        State::run(start, first, picks, book).least(cur),
        State::run(start, first, picks, book).nodes[cur as int].board != goal,
        State::run(start, first, picks, book).take(cur).heeds(
            cur,
            State::run(start, first, picks, book).nodes[cur as int].board.available(),
            ests,
            f,
            goal,
        ),
    ensures
        State::lawful(start, goal, f, first, picks.push(cur), book.push(ests)),
        State::run(start, first, picks.push(cur), book.push(ests)) == State::run(
            start,
            first,
            picks,
            book,
        ).expand(cur, ests),
{
    assert(picks.push(cur).drop_last() =~= picks);
    assert(book.push(ests).drop_last() =~= book);
}

/// What the search does with a successor.
enum Slot {
    /// Its board is new: the successor gets a handle and joins the frontier.
    Fresh,
    /// Its board waits in the frontier under this handle at a higher cost:
    /// the successor takes that place.
    Cheaper(usize),
    /// Its board is settled, or waits at a cost no higher: nothing is done.
    Stale,
}

/// The state of a search: the nodes met, those that wait to be expanded
/// with their estimates, and those that have been.
struct Search {
    arena: Arena,
    frontier: PriorityQueue<usize, Reverse<u32>>,
    visited: HashSet<usize>,
}

impl Search {
    /// The handles that wait, each with its estimate.
    closed spec fn open(&self) -> Map<usize, u32> {
        frontier_entries(self.frontier)
    }

    /// The handles that have been expanded.
    closed spec fn settled(&self) -> Set<usize> {
        self.visited@
    }

    /// The boards met so far, by handle.
    closed spec fn boards(&self) -> Seq<Board> {
        self.arena.boards()
    }

    /// The nodes met so far, by handle.
    closed spec fn nodes(&self) -> Seq<Node> {
        self.arena.nodes()
    }

    /// What holds of a search from `start` for `goal` between two steps,
    /// and, with `pending` set, while that handle is being expanded.
    ///
    /// Every node leads back to `start` by legal moves.  Every handle waits,
    /// is settled or is the pending one, and only one of these.  No settled
    /// board is `goal`, and what one legal move makes of a settled board has
    /// been met.
    #[verifier::opaque]
    closed spec fn inv(&self, start: Board, goal: Board, pending: Option<usize>) -> bool {
        &&& self.arena.inv()
        &&& self.open().dom().finite()
        &&& known(self.boards(), start)
        &&& forall|i: int|
            0 <= i < self.nodes().len() ==> (#[trigger] self.nodes()[i])@.grown_from(start)
        &&& forall|h: usize| #[trigger]
            self.open().contains_key(h) ==> h < self.nodes().len() && !self.settled().contains(h)
                && pending != Some(h) && self.open()[h] == self.nodes()[h as int]@.heuristic
        &&& forall|h: usize| #[trigger]
            self.settled().contains(h) ==> h < self.nodes().len() && pending != Some(h)
                && self.boards()[h as int] != goal
        &&& forall|h: usize|
            h < self.nodes().len() ==> #[trigger] self.open().contains_key(h)
                || #[trigger] self.settled().contains(h) || pending == Some(h)
        &&& pending matches Some(c) ==> c < self.nodes().len()
        &&& forall|h: usize, m: Move|
            self.settled().contains(h) && #[trigger] self.boards()[h as int].can_move(m) ==> known(
                self.boards(),
                self.boards()[h as int].slide(m),
            )
    }

    /// The search as a mathematical state.
    #[verifier::opaque]
    closed spec fn model(&self) -> State {
        State {
            nodes: Seq::new(self.nodes().len(), |i: int| self.nodes()[i]@),
            open: self.open().dom(),
            settled: self.settled(),
        }
    }

    /// A board that a node of the search holds is met in the model, under
    /// that node's handle and no other.
    proof fn lemma_model_find(
        self,
        start: Board,
        goal: Board,
        pending: Option<usize>,
        b: Board,
        h: int,
    )
        requires
            self.inv(start, goal, pending),
            0 <= h < self.nodes().len(),
            self.boards()[h] == b,
        ensures
            self.model().met(b),
            self.model().handle_of(b) == h,
    {
        reveal(Search::model);
        reveal(Search::inv);
        assert(self.model().nodes[h].board == b);
        let j = self.model().handle_of(b);
        assert(self.boards()[j] == self.boards()[h]);
    }

    /// A board that no node of the search holds is not met in the model.
    proof fn lemma_model_unmet(self, b: Board)
        requires
            !known(self.boards(), b),
        ensures
            !self.model().met(b),
    {
        reveal(Search::model);
        if self.model().met(b) {
            let j = choose|j: int|
                0 <= j < self.model().nodes.len() && (#[trigger] self.model().nodes[j]).board == b;
            assert(self.boards()[j] == b);
        }
    }

    /// Taking a handle with the least estimate from those that wait is
    /// taking a least handle in the model.
    proof fn lemma_model_next(self, before: Search, start: Board, goal: Board, cur: usize)
        requires
            before.inv(start, goal, None),
            self.nodes() == before.nodes(),
            self.settled() == before.settled(),
            self.open() == before.open().remove(cur),
            before.open().contains_key(cur),
            forall|v: usize| #[trigger]
                before.open().contains_key(v) ==> before.open()[cur] <= before.open()[v],
        ensures
            self.model() == before.model().take(cur),
            before.model().least(cur),
    {
        reveal(Search::model);
        reveal(Search::inv);
        assert(self.model().nodes =~= before.model().nodes);
        assert(self.model().open =~= before.model().open.remove(cur));
        assert forall|v: usize| #[trigger]
            before.model().open.contains(v) implies before.model().nodes[cur as int].heuristic
            <= before.model().nodes[v as int].heuristic by {
            assert(before.open().contains_key(v));
        }
    }

    /// A successor that joins the search, or takes the place of a costlier
    /// node that waits, is received so in the model.
    proof fn lemma_model_received(
        self,
        before: Search,
        start: Board,
        goal: Board,
        cur: usize,
        m: Move,
        e: u32,
        h: usize,
        child: Node,
    )
        requires
            before.inv(start, goal, Some(cur)),
            cur < before.nodes().len(),
            child@ == before.model().child(cur, m, e),
            self.settled() == before.settled(),
            self.open() == before.open().insert(h, child@.heuristic),
            (h == before.nodes().len() && self.nodes() == before.nodes().push(child) && !known(
                before.boards(),
                child@.board,
            )) || (h < before.nodes().len() && before.open().contains_key(h) && self.nodes()
                == before.nodes().update(h as int, child) && child@.board
                == before.boards()[h as int] && child@.cost < before.nodes()[h as int]@.cost),
        ensures
            self.model() == before.model().receive(cur, m, e),
            before.model().takes_up(cur, m),
    {
        reveal(Search::model);
        reveal(Search::inv);
        before.lemma_len();
        self.lemma_len();
        let prior = before.model();
        if h == before.nodes().len() {
            before.lemma_model_unmet(child@.board);
            assert(self.model().nodes =~= prior.nodes.push(child@));
            assert(self.model().open =~= prior.open.insert(h));
        } else {
            before.lemma_model_find(start, goal, Some(cur), child@.board, h as int);
            assert(self.model().nodes =~= prior.nodes.update(h as int, child@));
            assert(self.model().open =~= prior.open);
        }
    }

    /// A successor whose board is settled, or waits at a cost no higher,
    /// changes nothing in the model, whatever its estimate.
    proof fn lemma_model_stale(self, start: Board, goal: Board, cur: usize, m: Move, e: u32)
        requires
            self.inv(start, goal, Some(cur)),
            cur < self.nodes().len(),
            exists|h: int|
                0 <= h < self.nodes().len() && #[trigger] self.boards()[h]
                    == self.boards()[cur as int].slide(m) && !(self.open().contains_key(h as usize)
                    && self.nodes()[h]@.cost > capped(self.nodes()[cur as int]@.cost + 1)),
        ensures
            self.model().receive(cur, m, e) == self.model(),
            !self.model().takes_up(cur, m),
    {
        reveal(Search::model);
        reveal(Search::inv);
        self.lemma_len();
        let b = self.boards()[cur as int].slide(m);
        let h = choose|h: int|
            0 <= h < self.nodes().len() && #[trigger] self.boards()[h] == b && !(
            self.open().contains_key(h as usize) && self.nodes()[h]@.cost > capped(
                self.nodes()[cur as int]@.cost + 1,
            ));
        self.lemma_model_find(start, goal, Some(cur), b, h);
    }

    /// Settling the pending handle settles it in the model.
    proof fn lemma_model_settle(self, before: Search, cur: usize)
        requires
            self.nodes() == before.nodes(),
            self.open() == before.open(),
            self.settled() == before.settled().insert(cur),
        ensures
            self.model() == before.model().settle(cur),
    {
        reveal(Search::model);
        assert(self.model().nodes =~= before.model().nodes);
    }

    /// Whether board `b` is that of a settled node or of the pending one.
    #[verifier::opaque]
    closed spec fn held(&self, b: Board, pending: Option<usize>) -> bool {
        exists|u: usize|
            u < self.nodes().len() && (self.settled().contains(u) || pending == Some(u))
                && #[trigger] self.boards()[u as int] == b
    }

    /// Whether the ways to all nodes are direct, and each node's predecessor
    /// holds the board of a settled node or of the pending one.
    #[verifier::opaque]
    closed spec fn straight(&self, pending: Option<usize>) -> bool {
        forall|i: int|
            0 <= i < self.nodes().len() ==> {
                let n = (#[trigger] self.nodes()[i])@;
                &&& n.direct()
                &&& n.parent matches Some(p) ==> self.held(p.board, pending)
            }
    }

    /// The ways stay direct when a handle is taken from those that wait.
    proof fn lemma_straight_next(self, before: Search, cur: usize)
        requires
            before.straight(None),
            self.nodes() == before.nodes(),
            self.boards() == before.boards(),
            self.settled() == before.settled(),
        ensures
            self.straight(Some(cur)),
    {
        reveal(Search::held);
        reveal(Search::straight);
        assert forall|i: int| 0 <= i < self.nodes().len() implies {
            let n = (#[trigger] self.nodes()[i])@;
            &&& n.direct()
            &&& n.parent matches Some(p) ==> self.held(p.board, Some(cur))
        } by {
            let n = before.nodes()[i]@;
            if n.parent is Some {
                let b = n.parent.unwrap().board;
                assert(before.held(b, None));
                let u = choose|u: usize|
                    u < before.nodes().len() && (before.settled().contains(u) || None::<usize>
                        == Some(u)) && #[trigger] before.boards()[u as int] == b;
                assert(self.boards()[u as int] == b);
            }
        }
    }

    /// The ways stay direct when the pending node is settled.
    proof fn lemma_straight_settle(self, before: Search, cur: usize)
        requires
            before.straight(Some(cur)),
            self.nodes() == before.nodes(),
            self.boards() == before.boards(),
            self.settled() == before.settled().insert(cur),
        ensures
            self.straight(None),
    {
        reveal(Search::held);
        reveal(Search::straight);
        assert forall|i: int| 0 <= i < self.nodes().len() implies {
            let n = (#[trigger] self.nodes()[i])@;
            &&& n.direct()
            &&& n.parent matches Some(p) ==> self.held(p.board, None)
        } by {
            let n = before.nodes()[i]@;
            if n.parent is Some {
                let b = n.parent.unwrap().board;
                assert(before.held(b, Some(cur)));
                let u = choose|u: usize|
                    u < before.nodes().len() && (before.settled().contains(u) || Some(cur) == Some(
                        u,
                    )) && #[trigger] before.boards()[u as int] == b;
                assert(self.boards()[u as int] == b);
            }
        }
    }

    /// The ways stay direct when a successor of the pending node joins the
    /// search or takes the place of a node that waits: a move that undid
    /// the one before it would lead back to a settled board, and such a
    /// successor is not taken up.
    proof fn lemma_straight_kept(
        self,
        before: Search,
        start: Board,
        goal: Board,
        cur: usize,
        m: Move,
        h: usize,
        child: Node,
    )
        requires
            before.inv(start, goal, Some(cur)),
            before.straight(Some(cur)),
            start.wf(),
            cur < before.nodes().len(),
            self.settled() == before.settled(),
            child@.parent == Some(Box::new(before.nodes()[cur as int]@)),
            child@.move_done == Some(m),
            before.boards()[cur as int].can_move(m),
            child@.board == before.boards()[cur as int].slide(m),
            (h == before.nodes().len() && self.nodes() == before.nodes().push(child) && !known(
                before.boards(),
                child@.board,
            )) || (h < before.nodes().len() && before.open().contains_key(h) && self.nodes()
                == before.nodes().update(h as int, child) && child@.board
                == before.boards()[h as int]),
        ensures
            self.straight(Some(cur)),
    {
        reveal(Search::inv);
        reveal(Search::held);
        reveal(Search::straight);
        before.lemma_len();
        self.lemma_len();
        let parent = before.nodes()[cur as int]@;
        before.lemma_node(start, goal, Some(cur), cur as int);
        assert(child@.direct()) by {
            if parent.parent is Some {
                let gp = parent.parent.unwrap();
                let pm = parent.move_done.unwrap();
                if m == pm.reverse() {
                    gp.board.lemma_slide_back(pm);
                    assert(child@.board == gp.board);
                    assert(before.held(gp.board, Some(cur)));
                    let u = choose|u: usize|
                        u < before.nodes().len() && (before.settled().contains(u) || Some(cur)
                            == Some(u)) && #[trigger] before.boards()[u as int] == gp.board;
                    if h < before.nodes().len() {
                        assert(before.boards()[h as int] == before.boards()[u as int]);
                        assert(h == u);
                    }
                }
            }
        }
        assert forall|i: int| 0 <= i < before.nodes().len() implies self.boards()[i]
            == before.boards()[i] by {
            if i != h {
                assert(self.nodes()[i] == before.nodes()[i]);
            }
        }
        assert forall|i: int| 0 <= i < self.nodes().len() implies {
            let n = (#[trigger] self.nodes()[i])@;
            &&& n.direct()
            &&& n.parent matches Some(p) ==> self.held(p.board, Some(cur))
        } by {
            if i == h {
                assert(self.nodes()[i] == child);
                assert(self.boards()[cur as int] == parent.board);
            } else {
                assert(self.nodes()[i] == before.nodes()[i]);
                let n = before.nodes()[i]@;
                if n.parent is Some {
                    let b = n.parent.unwrap().board;
                    assert(before.held(b, Some(cur)));
                    let u = choose|u: usize|
                        u < before.nodes().len() && (before.settled().contains(u) || Some(cur)
                            == Some(u)) && #[trigger] before.boards()[u as int] == b;
                    assert(self.boards()[u as int] == b);
                }
            }
        }
    }

    /// The cost of the way to the node with handle `h`.
    closed spec fn cost(&self, h: int) -> int {
        self.nodes()[h]@.cost as int
    }

    /// The estimated total cost that the node with handle `h` carries.
    closed spec fn rank(&self, h: int) -> int {
        self.nodes()[h]@.heuristic as int
    }

    /// Whether board `b` has been met on a way of cost `c` or less.
    closed spec fn within(&self, b: Board, c: int) -> bool {
        exists|j: int|
            0 <= j < self.nodes().len() && #[trigger] self.boards()[j] == b && self.cost(j) <= c
    }

    /// What holds, beyond `inv`, of a search whose estimates are those of a
    /// consistent `est`.
    ///
    /// Each node carries its cost plus the estimate of its board.  No
    /// settled node carries more than one that waits or is pending, and the
    /// pending one no more than one that waits.  What one legal move makes
    /// of a settled board has been met at a cost at most 1 higher.  No way
    /// from `start` to a settled board is shorter than the settled node's
    /// cost.
    #[verifier::opaque]
    closed spec fn ordered(
        &self,
        est: spec_fn(Board) -> int,
        start: Board,
        pending: Option<usize>,
    ) -> bool {
        &&& forall|i: int|
            0 <= i < self.nodes().len() ==> #[trigger] self.rank(i) == capped(
                self.cost(i) + est(self.boards()[i]),
            )
        &&& forall|i: int|
            0 <= i < self.nodes().len() && #[trigger] self.boards()[i] == start ==> self.cost(i)
                == 0
        &&& forall|u: usize, v: usize| #[trigger]
            self.settled().contains(u) && #[trigger] self.open().contains_key(v) ==> self.rank(
                u as int,
            ) <= self.rank(v as int)
        &&& pending matches Some(c) ==> {
            &&& forall|u: usize| #[trigger]
                self.settled().contains(u) ==> self.rank(u as int) <= self.rank(c as int)
            &&& forall|v: usize| #[trigger]
                self.open().contains_key(v) ==> self.rank(c as int) <= self.rank(v as int)
        }
        &&& forall|u: usize, m: Move|
            self.settled().contains(u) && self.rank(u as int) < u32::MAX
                && #[trigger] self.boards()[u as int].can_move(m) ==> self.within(
                self.boards()[u as int].slide(m),
                self.cost(u as int) + 1,
            )
        &&& forall|u: usize, q: Seq<Move>|
            self.settled().contains(u) && #[trigger] start.leads_to(q, self.boards()[u as int])
                && q.len() + est(self.boards()[u as int]) < u32::MAX ==> self.cost(u as int)
                <= q.len()
    }

    /// Along a legal sequence `q` from `start` whose length plus the
    /// estimate at its end stays under the largest cost, the search has met
    /// one of the first `k` boards with a node that waits or is pending, at
    /// a cost no more than the moves up to it (the result's flag is set), or
    /// it has settled the board after `k` moves at a cost of `k` or less.
    proof fn lemma_walk(
        self,
        est: spec_fn(Board) -> int,
        start: Board,
        goal: Board,
        p: usize,
        q: Seq<Move>,
        k: int,
    ) -> (w: (bool, int, usize))
        requires
            self.inv(start, goal, Some(p)),
            self.ordered(est, start, Some(p)),
            consistent(est, goal),
            start.wf(),
            start.size() == goal.size(),
            start.playable(q),
            0 <= k <= q.len(),
            q.len() + est(start.play(q)) < u32::MAX,
        ensures
            w.2 < self.nodes().len(),
            w.0 ==> 0 <= w.1 <= k && (self.open().contains_key(w.2) || w.2 == p)
                && self.boards()[w.2 as int] == start.play(q.take(w.1)) && self.cost(w.2 as int)
                <= w.1,
            !w.0 ==> self.settled().contains(w.2) && self.boards()[w.2 as int] == start.play(
                q.take(k),
            ) && self.cost(w.2 as int) <= k,
        decreases k,
    {
        reveal(Search::inv);
        reveal(Search::ordered);
        self.lemma_len();
        if k == 0 {
            let j = choose|j: int| 0 <= j < self.boards().len() && #[trigger] self.boards()[j] == start;
            assert(q.take(0) =~= Seq::<Move>::empty());
            assert(self.open().contains_key(j as usize) || self.settled().contains(j as usize) || j
                == p);
            if self.settled().contains(j as usize) {
                (false, 0, j as usize)
            } else {
                (true, 0, j as usize)
            }
        } else {
            let w = self.lemma_walk(est, start, goal, p, q, k - 1);
            if w.0 {
                w
            } else {
                let u = w.2;
                lemma_consistent_along(est, goal, start, q, k - 1);
                start.lemma_prefix(q, k - 1);
                let here = start.play(q.take(k - 1));
                assert(self.rank(u as int) == capped(self.cost(u as int) + est(here)));
                assert(self.rank(u as int) < u32::MAX);
                assert(self.boards()[u as int].can_move(q[k - 1]));
                assert(self.within(here.slide(q[k - 1]), self.cost(u as int) + 1));
                let j = choose|j: int|
                    0 <= j < self.nodes().len() && #[trigger] self.boards()[j] == here.slide(
                        q[k - 1],
                    ) && self.cost(j) <= self.cost(u as int) + 1;
                assert(self.open().contains_key(j as usize) || self.settled().contains(j as usize) || j
                    == p);
                if self.settled().contains(j as usize) {
                    (false, k, j as usize)
                } else {
                    (true, k, j as usize)
                }
            }
        }
    }

    /// The pending node's cost is no more than the length of any way from
    /// `start` to its board, if that length plus the board's estimate stays
    /// under the largest cost.
    proof fn lemma_pop_optimal(
        self,
        est: spec_fn(Board) -> int,
        start: Board,
        goal: Board,
        p: usize,
        q: Seq<Move>,
    )
        requires
            self.inv(start, goal, Some(p)),
            self.ordered(est, start, Some(p)),
            consistent(est, goal),
            start.wf(),
            start.size() == goal.size(),
            start.leads_to(q, self.boards()[p as int]),
            q.len() + est(self.boards()[p as int]) < u32::MAX,
        ensures
            self.cost(p as int) <= q.len(),
    {
        reveal(Search::inv);
        reveal(Search::ordered);
        let w = self.lemma_walk(est, start, goal, p, q, q.len() as int);
        assert(q.take(q.len() as int) =~= q);
        let v = w.2;
        if !w.0 {
            assert(self.boards()[v as int] == self.boards()[p as int]);
            assert(v == p);
        } else if v != p {
            let i = w.1;
            lemma_consistent_along(est, goal, start, q, i);
            assert(self.rank(v as int) == capped(self.cost(v as int) + est(start.play(q.take(i)))));
            assert(self.rank(p as int) <= self.rank(v as int));
            assert(self.rank(p as int) == capped(
                self.cost(p as int) + est(self.boards()[p as int]),
            ));
        }
    }

    /// No way from `start` to the pending node's board, with its length and
    /// the board's estimate under the largest cost, is shorter than the
    /// pending node's cost.
    proof fn lemma_pop_best(self, est: spec_fn(Board) -> int, start: Board, goal: Board, p: usize)
        requires
            self.inv(start, goal, Some(p)),
            self.ordered(est, start, Some(p)),
            consistent(est, goal),
            start.wf(),
            start.size() == goal.size(),
        ensures
            forall|q: Seq<Move>| #[trigger]
                start.leads_to(q, self.boards()[p as int]) && q.len() + est(
                    self.boards()[p as int],
                ) < u32::MAX ==> self.cost(p as int) <= q.len(),
    {
        assert forall|q: Seq<Move>| #[trigger]
            start.leads_to(q, self.boards()[p as int]) && q.len() + est(self.boards()[p as int])
                < u32::MAX implies self.cost(p as int) <= q.len() by {
            self.lemma_pop_optimal(est, start, goal, p, q);
        }
    }

    /// A successor of the pending node carries no less than the pending
    /// node, where the estimate is consistent.
    proof fn lemma_child_rank(
        self,
        est: spec_fn(Board) -> int,
        start: Board,
        goal: Board,
        cur: usize,
        m: Move,
    )
        requires
            self.inv(start, goal, Some(cur)),
            self.ordered(est, start, Some(cur)),
            consistent(est, goal),
            start.wf(),
            start.size() == goal.size(),
            cur < self.nodes().len(),
            self.boards()[cur as int].can_move(m),
        ensures
            self.rank(cur as int) <= capped(
                capped(self.cost(cur as int) + 1) + est(self.boards()[cur as int].slide(m)),
            ),
            0 <= est(self.boards()[cur as int].slide(m)),
    {
        reveal(Search::inv);
        reveal(Search::ordered);
        self.lemma_node(start, goal, Some(cur), cur as int);
        lemma_grown(self.nodes()[cur as int]@, start);
        self.boards()[cur as int].lemma_slide_wf(m);
        assert(self.rank(cur as int) == capped(
            self.cost(cur as int) + est(self.boards()[cur as int]),
        ));
    }

    /// A search that has just begun is in order if its root carries the
    /// estimate of its board.
    proof fn lemma_ordered_begin(self, est: spec_fn(Board) -> int, start: Board, goal: Board)
        requires
            self.inv(start, goal, None),
            self.nodes().len() == 1,
            self.cost(0) == 0,
            self.rank(0) == est(start),
            forall|u: usize| !self.settled().contains(u),
            0 <= est(start) <= u32::MAX,
        ensures
            self.ordered(est, start, None),
    {
        reveal(Search::inv);
        reveal(Search::ordered);
    }

    /// A search stays in order when a handle with the least estimate is
    /// taken from those that wait and made the pending one.
    proof fn lemma_ordered_next(
        self,
        before: Search,
        est: spec_fn(Board) -> int,
        start: Board,
        goal: Board,
        cur: usize,
    )
        requires
            before.inv(start, goal, None),
            before.ordered(est, start, None),
            self.nodes() == before.nodes(),
            self.boards() == before.boards(),
            self.settled() == before.settled(),
            self.open() == before.open().remove(cur),
            before.open().contains_key(cur),
            forall|v: usize| #[trigger]
                before.open().contains_key(v) ==> before.open()[cur] <= before.open()[v],
        ensures
            self.ordered(est, start, Some(cur)),
    {
        reveal(Search::inv);
        reveal(Search::ordered);
        assert forall|i: int| 0 <= i < self.nodes().len() implies self.cost(i) == before.cost(i)
            && self.rank(i) == before.rank(i) by {}
        assert forall|v: usize| #[trigger] self.open().contains_key(v) implies self.rank(
            cur as int,
        ) <= self.rank(v as int) by {
            assert(before.open().contains_key(v));
        }
        assert forall|u: usize, v: usize| #[trigger]
            self.settled().contains(u) && #[trigger] self.open().contains_key(v) implies self.rank(
            u as int,
        ) <= self.rank(v as int) by {
            assert(before.open().contains_key(v));
        }
        assert forall|u: usize, m: Move|
            self.settled().contains(u) && self.rank(u as int) < u32::MAX
                && #[trigger] self.boards()[u as int].can_move(m) implies self.within(
            self.boards()[u as int].slide(m),
            self.cost(u as int) + 1,
        ) by {
            assert(before.within(before.boards()[u as int].slide(m), before.cost(u as int) + 1));
            let j = choose|j: int|
                0 <= j < before.nodes().len() && #[trigger] before.boards()[j]
                    == before.boards()[u as int].slide(m) && before.cost(j) <= before.cost(
                    u as int,
                ) + 1;
            assert(self.boards()[j] == self.boards()[u as int].slide(m));
        }
    }

    /// A search stays in order when a node that carries the estimate of its
    /// board, and no less than the pending node, joins it or takes the place
    /// of a costlier one that waits.  What had been met within a cost stays
    /// so.
    proof fn lemma_ordered_kept(
        self,
        before: Search,
        est: spec_fn(Board) -> int,
        start: Board,
        goal: Board,
        cur: usize,
        h: usize,
        child: Node,
    )
        requires
            before.inv(start, goal, Some(cur)),
            before.ordered(est, start, Some(cur)),
            self.inv(start, goal, Some(cur)),
            self.settled() == before.settled(),
            self.open() == before.open().insert(h, child@.heuristic),
            child@.heuristic == capped(child@.cost + est(child@.board)),
            before.rank(cur as int) <= child@.heuristic,
            (h == before.nodes().len() && self.nodes() == before.nodes().push(child) && !known(
                before.boards(),
                child@.board,
            )) || (h < before.nodes().len() && before.open().contains_key(h) && self.nodes()
                == before.nodes().update(h as int, child) && child@.board
                == before.boards()[h as int] && child@.cost < before.cost(h as int)),
        ensures
            self.ordered(est, start, Some(cur)),
            forall|b: Board, c: int| #[trigger] before.within(b, c) ==> self.within(b, c),
            self.within(child@.board, child@.cost as int),
    {
        reveal(Search::inv);
        reveal(Search::ordered);
        self.lemma_len();
        before.lemma_len();
        assert forall|i: int| 0 <= i < before.nodes().len() implies self.boards()[i]
            == before.boards()[i] && self.cost(i) <= before.cost(i) && (i != h ==> self.cost(i)
            == before.cost(i) && self.rank(i) == before.rank(i)) by {
            if i != h {
                assert(self.nodes()[i] == before.nodes()[i]);
            }
        }
        assert(self.boards()[h as int] == child@.board);
        assert(self.cost(h as int) == child@.cost);
        assert(self.rank(h as int) == child@.heuristic);
        assert forall|b: Board, c: int| #[trigger] before.within(b, c) implies self.within(b, c) by {
            let j = choose|j: int|
                0 <= j < before.nodes().len() && #[trigger] before.boards()[j] == b && before.cost(j)
                    <= c;
            assert(self.boards()[j] == b);
        }
        assert forall|i: int|
            0 <= i < self.nodes().len() && #[trigger] self.boards()[i] == start implies self.cost(i)
            == 0 by {
            if i == h {
                if h == before.nodes().len() {
                    assert(known(before.boards(), start));
                } else {
                    assert(before.boards()[i] == start);
                }
            } else {
                assert(before.boards()[i] == start);
            }
        }
        assert forall|u: usize, v: usize| #[trigger]
            self.settled().contains(u) && #[trigger] self.open().contains_key(v) implies self.rank(
            u as int,
        ) <= self.rank(v as int) by {
            assert(before.settled().contains(u));
            if v != h {
                assert(before.open().contains_key(v));
            }
        }
        assert forall|u: usize| #[trigger] self.settled().contains(u) implies self.rank(u as int)
            <= self.rank(cur as int) by {
            assert(before.settled().contains(u));
        }
        assert forall|v: usize| #[trigger] self.open().contains_key(v) implies self.rank(
            cur as int,
        ) <= self.rank(v as int) by {
            if v != h {
                assert(before.open().contains_key(v));
            }
        }
        assert forall|u: usize, m: Move|
            self.settled().contains(u) && self.rank(u as int) < u32::MAX
                && #[trigger] self.boards()[u as int].can_move(m) implies self.within(
            self.boards()[u as int].slide(m),
            self.cost(u as int) + 1,
        ) by {
            assert(before.settled().contains(u));
            assert(before.boards()[u as int].can_move(m));
            assert(before.within(before.boards()[u as int].slide(m), before.cost(u as int) + 1));
        }
        assert forall|u: usize, q: Seq<Move>|
            self.settled().contains(u) && #[trigger] start.leads_to(q, self.boards()[u as int])
                && q.len() + est(self.boards()[u as int]) < u32::MAX implies self.cost(u as int)
            <= q.len() by {
            assert(before.settled().contains(u));
            assert(start.leads_to(q, before.boards()[u as int]));
        }
    }

    /// A search stays in order when the pending node is settled, if no way
    /// to its board is shorter than its cost and what one legal move makes
    /// of its board has been met at a cost at most 1 higher.
    proof fn lemma_ordered_settle(
        self,
        before: Search,
        est: spec_fn(Board) -> int,
        start: Board,
        goal: Board,
        cur: usize,
    )
        requires
            before.inv(start, goal, Some(cur)),
            before.ordered(est, start, Some(cur)),
            self.nodes() == before.nodes(),
            self.boards() == before.boards(),
            self.open() == before.open(),
            self.settled() == before.settled().insert(cur),
            forall|q: Seq<Move>| #[trigger]
                start.leads_to(q, before.boards()[cur as int]) && q.len() + est(
                    before.boards()[cur as int],
                ) < u32::MAX ==> before.cost(cur as int) <= q.len(),
            before.rank(cur as int) < u32::MAX ==> forall|m: Move| #[trigger]
                before.boards()[cur as int].can_move(m) ==> before.within(
                    before.boards()[cur as int].slide(m),
                    before.cost(cur as int) + 1,
                ),
        ensures
            self.ordered(est, start, None),
    {
        reveal(Search::inv);
        reveal(Search::ordered);
        assert forall|i: int| 0 <= i < self.nodes().len() implies self.cost(i) == before.cost(i)
            && self.rank(i) == before.rank(i) by {}
        assert forall|u: usize, v: usize| #[trigger]
            self.settled().contains(u) && #[trigger] self.open().contains_key(v) implies self.rank(
            u as int,
        ) <= self.rank(v as int) by {
            assert(before.open().contains_key(v));
            if u != cur {
                assert(before.settled().contains(u));
            }
        }
        assert forall|u: usize, m: Move|
            self.settled().contains(u) && self.rank(u as int) < u32::MAX
                && #[trigger] self.boards()[u as int].can_move(m) implies self.within(
            self.boards()[u as int].slide(m),
            self.cost(u as int) + 1,
        ) by {
            if u != cur {
                assert(before.settled().contains(u));
            }
            assert(before.boards()[u as int].can_move(m));
            assert(before.within(before.boards()[u as int].slide(m), before.cost(u as int) + 1));
            let j = choose|j: int|
                0 <= j < before.nodes().len() && #[trigger] before.boards()[j]
                    == before.boards()[u as int].slide(m) && before.cost(j) <= before.cost(
                    u as int,
                ) + 1;
            assert(self.boards()[j] == self.boards()[u as int].slide(m));
        }
        assert forall|u: usize, q: Seq<Move>|
            self.settled().contains(u) && #[trigger] start.leads_to(q, self.boards()[u as int])
                && q.len() + est(self.boards()[u as int]) < u32::MAX implies self.cost(u as int)
            <= q.len() by {
            if u != cur {
                assert(before.settled().contains(u));
            }
            assert(start.leads_to(q, before.boards()[u as int]));
        }
    }

    /// A successor of the pending node whose board is settled, or waits at
    /// a cost no higher than the successor's, has been met at a cost at most
    /// 1 above the pending node's, if the pending node carries less than
    /// the largest cost.
    proof fn lemma_stale_within(
        self,
        est: spec_fn(Board) -> int,
        start: Board,
        goal: Board,
        cur: usize,
        m: Move,
    )
        requires
            self.inv(start, goal, Some(cur)),
            self.ordered(est, start, Some(cur)),
            start.wf(),
            self.rank(cur as int) < u32::MAX,
            0 <= est(self.boards()[cur as int]),
            self.boards()[cur as int].can_move(m),
            exists|h: int|
                0 <= h < self.nodes().len() && #[trigger] self.boards()[h]
                    == self.boards()[cur as int].slide(m) && !(self.open().contains_key(h as usize)
                    && self.cost(h) > self.cost(cur as int) + 1),
        ensures
            self.within(self.boards()[cur as int].slide(m), self.cost(cur as int) + 1),
    {
        reveal(Search::inv);
        reveal(Search::ordered);
        self.lemma_len();
        let parent = self.nodes()[cur as int]@;
        let next = self.boards()[cur as int].slide(m);
        let h = choose|h: int|
            0 <= h < self.nodes().len() && #[trigger] self.boards()[h] == next && !(
            self.open().contains_key(h as usize) && self.cost(h) > self.cost(cur as int) + 1);
        assert(self.open().contains_key(h as usize) || self.settled().contains(h as usize) || h
            == cur);
        assert(next.ex != self.boards()[cur as int].ex || next.ey != self.boards()[cur as int].ey);
        self.lemma_node(start, goal, Some(cur), cur as int);
        assert(self.rank(cur as int) == capped(
            self.cost(cur as int) + est(self.boards()[cur as int]),
        ));
        assert(self.cost(cur as int) == parent.depth());
        if self.settled().contains(h as usize) {
            lemma_grown(parent, start);
            start.lemma_play_push(parent.path(), m);
            let q = parent.path().push(m);
            assert(q.len() == parent.depth() + 1);
            assert(start.leads_to(q, self.boards()[h]));
            assert(self.rank(h) <= self.rank(cur as int));
            assert(self.rank(h) == capped(self.cost(h) + est(self.boards()[h])));
            if q.len() + est(self.boards()[h]) < u32::MAX {
                assert(self.cost(h) <= q.len());
            }
            assert(self.cost(h) <= self.cost(cur as int) + 1);
        }
        assert(self.boards()[h] == next && self.cost(h) <= self.cost(cur as int) + 1);
    }

    /// A search that has met `root` alone, which waits with its own estimate.
    fn begin(root: Node, Ghost(goal): Ghost<Board>) -> (s: Search)
        requires
            root.wf(),
            root@.parent is None,
            root@.move_done is None,
            root@.cost == 0,
        ensures
            s.inv(root@.board, goal, None),
            s.nodes().len() == 1,
            s.nodes()[0]@ == root@,
            forall|u: usize| !s.settled().contains(u),
            s.model() == State::begin(root@.board, root@.heuristic),
            s.straight(None),
    {
        proof {
            reveal(Search::inv);
        }
        let mut arena = Arena::new();
        let mut frontier = frontier_new();
        let estimate = root.get_heuristic();
        proof {
            root.lemma_wf();
        }
        let ghost model = root@;
        let h = arena.push(root);
        frontier_push(&mut frontier, h, estimate);
        let s = Search { arena, frontier, visited: HashSet::new() };
        proof {
            assert(s.boards()[0] == model.board);
            assert(s.open().dom() =~= Set::<usize>::empty().insert(h));
            reveal(Search::held);
            reveal(Search::straight);
            reveal(Search::model);
            assert(s.model().nodes =~= State::begin(model.board, model.heuristic).nodes);
            assert(s.model().settled =~= Set::<usize>::empty());
        }
        s
    }

    /// Whether no handle waits.
    fn exhausted(&self) -> (e: bool)
        ensures
            e <==> forall|h: usize| !self.open().contains_key(h),
    {
        let e = frontier_is_empty(&self.frontier);
        proof {
            if !e {
                let h = choose|h: usize| frontier_entries(self.frontier).contains_key(h);
                assert(self.open().contains_key(h));
            }
        }
        e
    }

    /// Takes a handle with the least estimate from those that wait, and makes
    /// it the pending one.
    fn next(&mut self, Ghost(start): Ghost<Board>, Ghost(goal): Ghost<Board>) -> (cur: usize)
        requires
            old(self).inv(start, goal, None),
            exists|h: usize| old(self).open().contains_key(h),
        ensures
            final(self).inv(start, goal, Some(cur)),
            cur < old(self).nodes().len(),
            final(self).nodes() == old(self).nodes(),
            final(self).open() == old(self).open().remove(cur),
            final(self).settled() == old(self).settled(),
            final(self).boards() == old(self).boards(),
            old(self).open().contains_key(cur),
            forall|v: usize| #[trigger]
                old(self).open().contains_key(v) ==> old(self).open()[cur] <= old(self).open()[v],
            final(self).open().dom().len() < old(self).open().dom().len(),
    {
        proof {
            reveal(Search::inv);
        }
        let least = frontier_pop(&mut self.frontier);
        match least {
            Some(entry) => {
                proof {
                    assert(self.boards() == old(self).boards());
                    assert(self.settled() == old(self).settled());
                    assert forall|h: usize| #[trigger]
                        self.open().contains_key(h) implies old(self).open().contains_key(h) by {}
                }
                entry.0
            },
            None => {
                proof {
                    let h = choose|h: usize| old(self).open().contains_key(h);
                    assert(false);
                }
                0
            },
        }
    }

    /// The node with handle `h`.
    fn node(&self, h: usize) -> (node: &Node)
        requires
            h < self.nodes().len(),
        ensures
            *node == self.nodes()[h as int],
    {
        self.arena.node(h)
    }

    /// What is to be done with `child`, which would be reached at cost `g`.
    fn classify(
        &self,
        child: &Node,
        g: u32,
        Ghost(start): Ghost<Board>,
        Ghost(goal): Ghost<Board>,
        Ghost(cur): Ghost<usize>,
    ) -> (slot: Slot)
        requires
            self.inv(start, goal, Some(cur)),
            child.wf(),
        ensures
            match slot {
                Slot::Fresh => !known(self.boards(), child@.board),
                Slot::Cheaper(h) => h < self.nodes().len() && self.boards()[h as int]
                    == child@.board && self.open().contains_key(h) && self.nodes()[h as int]@.cost
                    > g,
                Slot::Stale => exists|h: int|
                    0 <= h < self.nodes().len() && #[trigger] self.boards()[h] == child@.board && !(
                    self.open().contains_key(h as usize) && self.nodes()[h]@.cost > g),
            },
    {
        proof {
            reveal(Search::inv);
        }
        match self.arena.find(child.taquin()) {
            None => Slot::Fresh,
            Some(h) => {
                if self.visited.contains(&h) {
                    assert(!self.open().contains_key(h));
                    Slot::Stale
                } else {
                    match frontier_get(&self.frontier, h) {
                        Some(_) => {
                            if self.arena.node(h).get_cost() > g {
                                Slot::Cheaper(h)
                            } else {
                                Slot::Stale
                            }
                        },
                        None => Slot::Stale,
                    }
                }
            },
        }
    }

    /// Gives `child`, whose board is new, a handle, and lets it wait with
    /// its estimate.
    fn insert(
        &mut self,
        child: Node,
        Ghost(start): Ghost<Board>,
        Ghost(goal): Ghost<Board>,
        Ghost(cur): Ghost<usize>,
    )
        requires
            old(self).inv(start, goal, Some(cur)),
            child.wf(),
            child@.grown_from(start),
            !known(old(self).boards(), child@.board),
        ensures
            final(self).inv(start, goal, Some(cur)),
            final(self).nodes() == old(self).nodes().push(child),
            final(self).boards() == old(self).boards().push(child@.board),
            final(self).settled() == old(self).settled(),
            final(self).open() == old(self).open().insert(
                old(self).nodes().len() as usize,
                child@.heuristic,
            ),
    {
        proof {
            reveal(Search::inv);
        }
        let estimate = child.get_heuristic();
        let h = self.arena.push(child);
        frontier_push(&mut self.frontier, h, estimate);
        proof {
            assert(self.boards() =~= old(self).boards().push(child@.board));
            self.lemma_kept(*old(self), start, goal, cur, h, child);
        }
    }

    /// Puts `child` in the place of the waiting node with handle `h`, which
    /// has the same board, and lets it wait with its own estimate.
    fn improve(
        &mut self,
        h: usize,
        child: Node,
        Ghost(start): Ghost<Board>,
        Ghost(goal): Ghost<Board>,
        Ghost(cur): Ghost<usize>,
    )
        requires
            old(self).inv(start, goal, Some(cur)),
            h < old(self).nodes().len(),
            old(self).open().contains_key(h),
            child.wf(),
            child@.grown_from(start),
            child@.board == old(self).boards()[h as int],
            child@.cost < old(self).nodes()[h as int]@.cost,
        ensures
            final(self).inv(start, goal, Some(cur)),
            final(self).nodes() == old(self).nodes().update(h as int, child),
            final(self).boards() == old(self).boards(),
            final(self).settled() == old(self).settled(),
            final(self).open() == old(self).open().insert(h, child@.heuristic),
            final(self).open().dom() == old(self).open().dom(),
    {
        proof {
            reveal(Search::inv);
        }
        let estimate = child.get_heuristic();
        self.arena.replace(h, child);
        frontier_push(&mut self.frontier, h, estimate);
        proof {
            assert(self.boards() =~= old(self).boards());
            assert(self.open().dom() =~= old(self).open().dom());
            self.lemma_kept(*old(self), start, goal, cur, h, child);
        }
    }

    /// Each node of a search in order grew from the board the search began
    /// on, and is the node of its board.
    proof fn lemma_node(self, start: Board, goal: Board, pending: Option<usize>, h: int)
        requires
            self.inv(start, goal, pending),
            0 <= h < self.nodes().len(),
        ensures
            self.nodes()[h]@.grown_from(start),
            self.nodes()[h].wf(),
            self.boards()[h] == self.nodes()[h]@.board,
            self.boards().len() == self.nodes().len(),
    {
        reveal(Search::inv);
    }

    /// The way to each node of a search whose ways are direct is direct.
    proof fn lemma_direct(self, pending: Option<usize>, h: int)
        requires
            self.straight(pending),
            0 <= h < self.nodes().len(),
        ensures
            self.nodes()[h]@.direct(),
    {
        reveal(Search::held);
        reveal(Search::straight);
    }

    /// The model holds the node with handle `h` as the search does.
    proof fn lemma_model_node(self, h: int)
        requires
            0 <= h < self.nodes().len(),
        ensures
            self.model().nodes[h] == self.nodes()[h]@,
            self.model().nodes.len() == self.nodes().len(),
            self.model().open == self.open().dom(),
            self.boards()[h] == self.nodes()[h]@.board,
    {
        reveal(Search::model);
    }

    /// The cost of a node is what its model says.
    proof fn lemma_cost(self, h: int)
        requires
            0 <= h < self.nodes().len(),
        ensures
            self.cost(h) == self.nodes()[h]@.cost,
            self.rank(h) == self.nodes()[h]@.heuristic,
    {
    }

    /// The pending node of a search, taken after a lawful run and holding
    /// the goal, ends that run: its way is one that the search finds, no
    /// move of it undoes the one before, and where the estimate is
    /// consistent no way of fewer than `u32::MAX` moves is shorter.
    proof fn lemma_found<F: Fn(&Taquin, &Taquin) -> Result<u32, TaquinError>>(
        self,
        before: Search,
        start: Board,
        goal: Board,
        f: &F,
        first: u32,
        picks: Seq<usize>,
        book: Seq<Seq<u32>>,
        cur: usize,
        est: spec_fn(Board) -> int,
        good: bool,
    )
        requires
            self.inv(start, goal, Some(cur)),
            self.straight(Some(cur)),
            good ==> self.ordered(est, start, Some(cur)) && consistent(est, goal),
            start.wf(),
            start.size() == goal.size(),
            before.model() == State::run(start, first, picks, book),
            State::lawful(start, goal, f, first, picks, book),
            before.model().least(cur),
            self.nodes() == before.nodes(),
            cur < self.nodes().len(),
            self.nodes()[cur as int]@.board == goal,
        ensures
            ends_with(start, goal, f, first, picks, book, cur, self.nodes()[cur as int]@.path()),
            start.leads_to(self.nodes()[cur as int]@.path(), goal),
            self.nodes()[cur as int].wf(),
            no_undo(self.nodes()[cur as int]@.path()),
            good ==> forall|other: Seq<Move>| #[trigger]
                start.leads_to(other, goal) && other.len() < u32::MAX
                    ==> self.nodes()[cur as int]@.path().len() <= other.len(),
    {
        let node = self.nodes()[cur as int]@;
        self.lemma_node(start, goal, Some(cur), cur as int);
        lemma_grown(node, start);
        before.lemma_model_node(cur as int);
        self.lemma_direct(Some(cur), cur as int);
        node.lemma_direct_path();
        if good {
            self.lemma_pop_best(est, start, goal, cur);
            assert(node.priced());
        }
    }

    /// The first handle that a search takes is that of the board it began
    /// on.
    proof fn lemma_first_pick(self, start: Board, first: u32, cur: usize)
        requires
            self.model() == State::begin(start, first),
            self.open().contains_key(cur),
        ensures
            cur == 0,
            self.nodes().len() == 1,
            self.nodes()[0]@.board == start,
            self.nodes()[0]@.path().len() == 0,
    {
        reveal(Search::model);
        assert(self.model().open.contains(cur));
        assert(self.model().nodes.len() == 1);
        assert(self.model().nodes[0].board == start);
        assert(self.model().nodes[0].parent is None);
    }

    /// The search has met no more nodes than a machine word counts.
    proof fn lemma_len(self)
        ensures
            self.nodes().len() <= usize::MAX,
            self.boards().len() == self.nodes().len(),
    {
        self.arena.lemma_len();
    }

    /// When no handle waits, the board the search began on does not reach
    /// the goal.
    proof fn lemma_exhausted(self, start: Board, goal: Board)
        requires
            self.inv(start, goal, None),
            forall|h: usize| !self.open().contains_key(h),
        ensures
            !start.reaches(goal),
    {
        reveal(Search::inv);
        let boards = self.boards();
        self.lemma_len();
        if start.reaches(goal) {
            let path = choose|path: Seq<Move>| start.leads_to(path, goal);
            assert forall|i: int, m: Move|
                0 <= i < boards.len() && #[trigger] boards[i].can_move(m) implies known(
                boards,
                boards[i].slide(m),
            ) by {
                assert(self.open().contains_key(i as usize) || self.settled().contains(i as usize));
            }
            lemma_closed_under_moves(boards, start, path);
            let i = choose|i: int| 0 <= i < boards.len() && #[trigger] boards[i] == goal;
            assert(self.open().contains_key(i as usize) || self.settled().contains(i as usize));
        }
    }

    /// The search stays in order when a node joins it or takes the place of
    /// one that waits, and waits with its estimate.
    proof fn lemma_kept(
        self,
        before: Search,
        start: Board,
        goal: Board,
        cur: usize,
        h: usize,
        child: Node,
    )
        requires
            before.inv(start, goal, Some(cur)),
            self.arena.inv(),
            self.settled() == before.settled(),
            child@.grown_from(start),
            self.open() == before.open().insert(h, child@.heuristic),
            h != cur,
            !before.settled().contains(h),
            (h == before.nodes().len() && self.nodes() == before.nodes().push(child)) || (h
                < before.nodes().len() && self.nodes() == before.nodes().update(h as int, child)
                && child@.board == before.boards()[h as int]),
        ensures
            self.inv(start, goal, Some(cur)),
    {
        reveal(Search::inv);
        let ob = before.boards();
        let nb = self.boards();
        assert(ob.len() <= nb.len());
        assert forall|i: int| 0 <= i < ob.len() implies #[trigger] nb[i] == ob[i] by {}
        lemma_known_grows(ob, nb, start);
        assert forall|i: int| 0 <= i < self.nodes().len() implies (#[trigger] self.nodes()[i])@.grown_from(
            start,
        ) by {
            if i != h {
                assert(self.nodes()[i] == before.nodes()[i]);
            }
        }
        assert forall|k: usize| #[trigger]
            self.open().contains_key(k) implies k < self.nodes().len() && !self.settled().contains(k)
            && Some(cur) != Some(k) && self.open()[k] == self.nodes()[k as int]@.heuristic by {
            if k != h {
                assert(before.open().contains_key(k));
                assert(self.nodes()[k as int] == before.nodes()[k as int]);
            }
        }
        assert forall|k: usize| #[trigger]
            self.settled().contains(k) implies k < self.nodes().len() && Some(cur) != Some(k)
            && self.boards()[k as int] != goal by {
            assert(before.settled().contains(k));
            assert(nb[k as int] == ob[k as int]);
        }
        assert forall|k: usize|
            k < self.nodes().len() implies #[trigger] self.open().contains_key(k)
            || #[trigger] self.settled().contains(k) || Some(cur) == Some(k) by {
            if k != h {
                assert(before.open().contains_key(k) || before.settled().contains(k) || cur == k);
            }
        }
        assert forall|k: usize, m: Move|
            self.settled().contains(k) && #[trigger] self.boards()[k as int].can_move(
                m,
            ) implies known(self.boards(), self.boards()[k as int].slide(m)) by {
            assert(before.settled().contains(k));
            assert(nb[k as int] == ob[k as int]);
            assert(ob[k as int].can_move(m));
            lemma_known_grows(ob, nb, ob[k as int].slide(m));
        }
    }

    /// Settles the pending handle, whose board is not `goal` and whose
    /// successors have all been met.
    fn settle(&mut self, cur: usize, Ghost(start): Ghost<Board>, Ghost(goal): Ghost<Board>)
        requires
            old(self).inv(start, goal, Some(cur)),
            old(self).boards()[cur as int] != goal,
            forall|m: Move| #[trigger]
                old(self).boards()[cur as int].can_move(m) ==> known(
                    old(self).boards(),
                    old(self).boards()[cur as int].slide(m),
                ),
        ensures
            final(self).inv(start, goal, None),
            final(self).nodes() == old(self).nodes(),
            final(self).open() == old(self).open(),
            final(self).boards() == old(self).boards(),
            final(self).settled() == old(self).settled().insert(cur),
    {
        proof {
            reveal(Search::inv);
        }
        self.visited.insert(cur);
        proof {
            assert(self.boards() == old(self).boards());
            assert forall|h: usize| #[trigger]
                self.settled().contains(h) implies old(self).settled().contains(h) || h == cur by {}
            assert(self.open() == old(self).open());
            assert(self.nodes() == old(self).nodes());
            assert forall|h: usize| #[trigger]
                self.open().contains_key(h) implies h < self.nodes().len()
                && !self.settled().contains(h) && self.open()[h] == self.nodes()[h as int]@.heuristic by {
                assert(old(self).open().contains_key(h));
            }
            assert forall|h: usize| #[trigger]
                self.settled().contains(h) implies h < self.nodes().len()
                && self.boards()[h as int] != goal by {}
            assert forall|h: usize|
                h < self.nodes().len() implies #[trigger] self.open().contains_key(h)
                || #[trigger] self.settled().contains(h) by {
                assert(old(self).open().contains_key(h) || old(self).settled().contains(h) || h == cur);
            }
            assert forall|h: usize, m: Move|
                self.settled().contains(h) && #[trigger] self.boards()[h as int].can_move(
                    m,
                ) implies known(self.boards(), self.boards()[h as int].slide(m)) by {
                if h != cur {
                    assert(old(self).settled().contains(h));
                }
            }
        }
    }
}

/// Expands the pending node of a search for `end`: deals with its successors
/// in the order in which its board offers them, asking `heuristic_funct` for
/// the estimate of each one that is taken up, and settles it.  The result is
/// the estimates used.
fn expand<F: Fn(&Taquin, &Taquin) -> Result<u32, TaquinError>>(
    search: &mut Search,
    cur: usize,
    end: &Taquin,
    heuristic_funct: &F,
    Ghost(origin): Ghost<Board>,
    Ghost(est): Ghost<spec_fn(Board) -> int>,
    Ghost(good): Ghost<bool>,
) -> (used: Ghost<Seq<u32>>)
    requires
        old(search).inv(origin, end@, Some(cur)),
        old(search).straight(Some(cur)),
        good ==> old(search).ordered(est, origin, Some(cur)),
        good ==> consistent(est, end@) && computes(heuristic_funct, est, end@),
        cur < old(search).nodes().len(),
        old(search).boards()[cur as int] != end@,
        end.wf(),
        origin.wf(),
        origin.size() == end@.size(),
        estimates(heuristic_funct),
    ensures
        final(search).inv(origin, end@, None),
        final(search).straight(None),
        good ==> final(search).ordered(est, origin, None),
        final(search).model() == old(search).model().receive_all(
            cur,
            old(search).model().nodes[cur as int].board.available(),
            used@,
        ).settle(cur),
        old(search).model().heeds(
            cur,
            old(search).model().nodes[cur as int].board.available(),
            used@,
            heuristic_funct,
            end@,
        ),
        final(search).nodes().len() >= old(search).nodes().len(),
        final(search).nodes().len() == old(search).nodes().len() ==> final(search).open().dom()
            == old(search).open().dom(),
{
    let ghost goal = end@;
    let ghost met = search.nodes().len();
    let ghost waiting = search.open().dom();
    let ghost taken = search.model();
    let current = search.node(cur);
    proof {
        search.lemma_node(origin, goal, Some(cur), cur as int);
        lemma_grown(current@, origin);
        search.lemma_model_node(cur as int);
    }
    let g = current.get_cost().saturating_add(1);
    let mut children = current.succesors();
    let ghost parent = current@;
    let ghost all = children@;
    let ghost moves = parent.board.available();
    let ghost done: int = 0;
    let ghost ests = Seq::<u32>::empty();
    proof {
        parent.board.lemma_available();
        if good {
            search.lemma_pop_best(est, origin, goal, cur);
        }
        assert(moves.take(0) =~= Seq::<Move>::empty());
    }
    while children.len() > 0
        invariant
            search.inv(origin, goal, Some(cur)),
            search.straight(Some(cur)),
            good ==> search.ordered(est, origin, Some(cur)),
            good ==> consistent(est, goal) && computes(heuristic_funct, est, goal),
            search.model() == taken.receive_all(cur, moves.take(done), ests),
            taken.heeds(cur, moves.take(done), ests, heuristic_funct, goal),
            taken.nodes[cur as int] == parent,
            ests.len() == done,
            search.nodes().len() >= met,
            search.nodes().len() == met ==> search.open().dom() == waiting,
            cur < search.nodes().len(),
            search.boards()[cur as int] == parent.board,
            search.nodes()[cur as int]@ == parent,
            end.wf(),
            goal == end@,
            origin.wf(),
            origin.size() == goal.size(),
            estimates(heuristic_funct),
            parent.grown_from(origin),
            g == capped(parent.cost + 1),
            0 <= done <= all.len(),
            all.len() == moves.len(),
            children@ == all.subrange(done, all.len() as int),
            forall|i: int| 0 <= i < moves.len() ==> parent.board.can_move(#[trigger] moves[i]),
            forall|i: int|
                0 <= i < all.len() ==> {
                    let child = #[trigger] all[i];
                    &&& child.wf()
                    &&& child@.move_done == Some(moves[i])
                    &&& child@.board == parent.board.slide(moves[i])
                    &&& child@.parent == Some(Box::new(parent))
                },
            forall|i: int|
                0 <= i < done ==> known(search.boards(), #[trigger] parent.board.slide(moves[i])),
            good && search.rank(cur as int) < u32::MAX ==> forall|i: int|
                0 <= i < done ==> search.within(
                    #[trigger] parent.board.slide(moves[i]),
                    parent.cost + 1,
                ),
        decreases children.len(),
    {
        let mut child = children.remove(0);
        let ghost m = moves[done];
        let ghost old_boards = search.boards();
        let ghost earlier = *search;
        let ghost used: u32 = 0;
        proof {
            assert(child == all[done]);
            assert(parent.board.can_move(m));
            parent.board.lemma_slide_wf(m);
            lemma_grown(parent, origin);
            child.lemma_wf();
            search.lemma_len();
            search.lemma_model_node(cur as int);
        }
        match search.classify(&child, g, Ghost(origin), Ghost(goal), Ghost(cur)) {
            Slot::Stale => {
                proof {
                    if good && search.rank(cur as int) < u32::MAX {
                        search.lemma_child_rank(est, origin, goal, cur, m);
                        search.lemma_stale_within(est, origin, goal, cur, m);
                    }
                    search.lemma_model_stale(origin, goal, cur, m, used);
                }
            },
            Slot::Fresh => {
                let answer = heuristic_funct(child.taquin(), end);
                let estimate = answer.unwrap();
                proof {
                    used = estimate;
                    assert(answers(heuristic_funct, parent.board.slide(m), goal, estimate));
                }
                child.set_costs(g, g.saturating_add(estimate));
                let ghost h = search.nodes().len() as usize;
                search.insert(child, Ghost(origin), Ghost(goal), Ghost(cur));
                proof {
                    assert(search.boards()[old_boards.len() as int] == parent.board.slide(m));
                    if good {
                        earlier.lemma_child_rank(est, origin, goal, cur, m);
                        search.lemma_ordered_kept(earlier, est, origin, goal, cur, h, child);
                    }
                    search.lemma_model_received(earlier, origin, goal, cur, m, estimate, h, child);
                    search.lemma_straight_kept(earlier, origin, goal, cur, m, h, child);
                }
            },
            Slot::Cheaper(h) => {
                let answer = heuristic_funct(child.taquin(), end);
                let estimate = answer.unwrap();
                proof {
                    used = estimate;
                    assert(answers(heuristic_funct, parent.board.slide(m), goal, estimate));
                }
                child.set_costs(g, g.saturating_add(estimate));
                search.improve(h, child, Ghost(origin), Ghost(goal), Ghost(cur));
                proof {
                    assert(search.boards()[h as int] == parent.board.slide(m));
                    if good {
                        earlier.lemma_child_rank(est, origin, goal, cur, m);
                        search.lemma_ordered_kept(earlier, est, origin, goal, cur, h, child);
                    }
                    search.lemma_model_received(earlier, origin, goal, cur, m, estimate, h, child);
                    search.lemma_straight_kept(earlier, origin, goal, cur, m, h, child);
                }
            },
        }
        proof {
            assert(known(search.boards(), parent.board.slide(m)));
            assert forall|i: int| 0 <= i < done implies known(
                search.boards(),
                #[trigger] parent.board.slide(moves[i]),
            ) by {
                lemma_known_grows(old_boards, search.boards(), parent.board.slide(moves[i]));
            }
            assert(children@ =~= all.subrange(done + 1, all.len() as int));
            assert(moves.take(done + 1).drop_last() =~= moves.take(done));
            assert(moves.take(done + 1).last() == m);
            assert(ests.push(used).drop_last() =~= ests);
            ests = ests.push(used);
            done = done + 1;
        }
    }
    let ghost later = *search;
    proof {
        assert forall|m: Move| #[trigger]
            search.boards()[cur as int].can_move(m) implies known(
            search.boards(),
            search.boards()[cur as int].slide(m),
        ) by {
            assert(moves.contains(m));
            let i = choose|i: int| 0 <= i < moves.len() && moves[i] == m;
            assert(known(search.boards(), parent.board.slide(moves[i])));
        }
        if good && search.rank(cur as int) < u32::MAX {
            assert forall|m: Move| #[trigger]
                search.boards()[cur as int].can_move(m) implies search.within(
                search.boards()[cur as int].slide(m),
                search.cost(cur as int) + 1,
            ) by {
                assert(moves.contains(m));
                let i = choose|i: int| 0 <= i < moves.len() && moves[i] == m;
                assert(search.within(parent.board.slide(moves[i]), parent.cost + 1));
            }
        }
    }
    search.settle(cur, Ghost(origin), Ghost(goal));
    proof {
        if good {
            search.lemma_ordered_settle(later, est, origin, goal, cur);
        }
        search.lemma_model_settle(later, cur);
        search.lemma_straight_settle(later, cur);
        assert(moves.take(moves.len() as int) =~= moves);
    }
    Ghost(ests)
}

/// Searches for a way from `start` to `end`, best first: of the boards that
/// wait, one with the least sum of cost so far and `heuristic_funct`'s
/// estimate of the rest is expanded next.  A board met again is taken up
/// only while it waits, and only at a lower cost.
///
/// Boards of different sides are turned down.  Otherwise the result is the
/// way that some run of the search finds, where a run may take any of
/// several boards that wait with the same least sum: a sequence of legal
/// moves that turns `start` into `end`, none of which undoes the one before
/// it, and the empty sequence where the two boards are the same.  There is
/// such a way whenever `end` can be reached; when it cannot, the search says
/// that it ran out of boards.  Where `heuristic_funct` computes a consistent
/// estimate, no way of fewer than `u32::MAX` moves is shorter than the one
/// returned.  Costs and sums stop growing at `u32::MAX`.
pub fn astar<F: Fn(&Taquin, &Taquin) -> Result<u32, TaquinError>>(
    start: &Taquin,
    end: &Taquin,
    heuristic_funct: &F,
) -> (r: Result<Vec<Move>, TaquinError>)
    requires
        start.wf(),
        end.wf(),
        estimates(heuristic_funct),
    ensures
        start@.size() != end@.size() ==> r == Err::<Vec<Move>, TaquinError>(
            TaquinError::SizeMismatch,
        ),
        start@.size() == end@.size() ==> match r {
            Ok(path) => start@.leads_to(path@, end@),
            Err(e) => e == TaquinError::SearchExhausted && !start@.reaches(end@),
        },
        r is Ok <==> start@.size() == end@.size() && start@.reaches(end@),
        r matches Ok(path) ==> finds(start@, end@, heuristic_funct, path@),
        start@ == end@ ==> (r matches Ok(path) && path@.len() == 0),
        r matches Ok(path) ==> no_undo(path@),
        r matches Ok(path) ==> steady(heuristic_funct, end@) ==> forall|other: Seq<Move>| #[trigger]
            start@.leads_to(other, end@) && other.len() < u32::MAX ==> path@.len() <= other.len(),
{
    if start.size() != end.size() {
        return Err(TaquinError::SizeMismatch);
    }
    let ghost origin = start@;
    let ghost goal = end@;
    let ghost good = steady(heuristic_funct, goal);
    let ghost est = choose|est: spec_fn(Board) -> int|
        consistent(est, goal) && computes(heuristic_funct, est, goal);
    proof {
        start.lemma_wf();
        end.lemma_wf();
    }
    let answer = heuristic_funct(start, end);
    let estimate = answer.unwrap();
    let ghost first = estimate;
    let ghost picks = Seq::<usize>::empty();
    let ghost book = Seq::<Seq<u32>>::empty();
    let root = Node::new(start.clone(), 0, estimate, None, None);
    let mut search = Search::begin(root, Ghost(goal));
    proof {
        if good {
            search.lemma_ordered_begin(est, origin, goal);
        }
        assert(answers(heuristic_funct, origin, goal, first));
    }
    while !search.exhausted()
        invariant
            search.inv(origin, goal, None),
            search.straight(None),
            good == steady(heuristic_funct, goal),
            good ==> search.ordered(est, origin, None),
            good ==> consistent(est, goal) && computes(heuristic_funct, est, goal),
            search.model() == State::run(origin, first, picks, book),
            State::lawful(origin, goal, heuristic_funct, first, picks, book),
            picks.len() > 0 ==> origin != goal,
            start.wf(),
            end.wf(),
            origin == start@,
            goal == end@,
            origin.wf(),
            origin.size() == goal.size(),
            estimates(heuristic_funct),
        decreases usize::MAX - search.nodes().len(), search.open().dom().len(),
    {
        let ghost before = search;
        proof {
            let h = choose|h: usize| search.open().contains_key(h);
            assert(search.open().contains_key(h));
        }
        let cur = search.next(Ghost(origin), Ghost(goal));
        let current = search.node(cur);
        proof {
            search.lemma_node(origin, goal, Some(cur), cur as int);
            search.lemma_model_next(before, origin, goal, cur);
            search.lemma_straight_next(before, cur);
            if good {
                search.lemma_ordered_next(before, est, origin, goal, cur);
            }
            if picks.len() == 0 {
                before.lemma_first_pick(origin, first, cur);
            }
        }
        if *current.taquin() == *end {
            proof {
                search.lemma_found(
                    before,
                    origin,
                    goal,
                    heuristic_funct,
                    first,
                    picks,
                    book,
                    cur,
                    est,
                    good,
                );
            }
            return Ok(current.reconstruct_moves());
        }
        let Ghost(ests) = expand(
            &mut search,
            cur,
            end,
            heuristic_funct,
            Ghost(origin),
            Ghost(est),
            Ghost(good),
        );
        proof {
            search.lemma_len();
            before.lemma_model_node(cur as int);
            lemma_run_goes_on(origin, goal, heuristic_funct, first, picks, book, cur, ests);
            picks = picks.push(cur);
            book = book.push(ests);
        }
    }
    proof {
        search.lemma_exhausted(origin, goal);
        assert(origin.leads_to(Seq::<Move>::empty(), origin));
    }
    Err(TaquinError::SearchExhausted)
}

} // verus!
