//! Search nodes: a board together with the cost of reaching it, an estimate,
//! and the way back to the board the search began with.

use vstd::prelude::*;
use std::rc::Rc;
use crate::board::{Board, Move, Taquin};
use crate::path::no_undo;

verus! {

/// The mathematical search node.
pub struct NodeModel {
    pub board: Board,
    pub cost: u32,
    pub heuristic: u32,
    pub move_done: Option<Move>,
    pub parent: Option<Box<NodeModel>>,
}

impl NodeModel {
    /// A node is well formed when its board and those of all its
    /// predecessors are, and each node that has a predecessor records the
    /// move made there.
    pub open spec fn wf(self) -> bool
        decreases self,
    {
        &&& self.board.wf()
        &&& match self.parent {
            None => true,
            Some(p) => self.move_done is Some && p.wf(),
        }
    }

    /// The number of predecessors.
    pub open spec fn depth(self) -> nat
        decreases self,
    {
        match self.parent {
            None => 0,
            Some(p) => p.depth() + 1,
        }
    }

    /// The recorded moves from the first predecessor down to this node.
    pub open spec fn path(self) -> Seq<Move>
        decreases self,
    {
        match self.parent {
            None => Seq::empty(),
            Some(p) => p.path().push(self.move_done.unwrap()),
        }
    }

    /// The board of the node that has no predecessor.
    pub open spec fn root(self) -> Board
        decreases self,
    {
        match self.parent {
            None => self.board,
            Some(p) => p.root(),
        }
    }

    /// Whether each recorded move is legal on the predecessor's board and
    /// makes the node's board of it.
    pub open spec fn linked(self) -> bool
        decreases self,
    {
        match self.parent {
            None => true,
            Some(p) => {
                &&& p.linked()
                &&& self.move_done matches Some(m)
                &&& p.board.can_move(m)
                &&& self.board == p.board.slide(m)
            },
        }
    }

    /// Whether the node's cost is the number of its predecessors, or the
    /// largest cost there is if that number is larger.
    pub open spec fn priced(self) -> bool {
        self.cost == if self.depth() > u32::MAX {
            u32::MAX as int
        } else {
            self.depth() as int
        }
    }

    /// Whether the node belongs to a search that began on board `start`:
    /// it is well formed, linked and priced, and `start` is its root.
    pub open spec fn grown_from(self, start: Board) -> bool {
        &&& self.wf()
        &&& self.linked()
        &&& self.priced()
        &&& self.root() == start
    }

    /// Whether no move recorded on the way to the node undoes the move
    /// recorded before it.
    pub open spec fn direct(self) -> bool
        decreases self,
    {
        match self.parent {
            None => true,
            Some(p) => p.direct() && (p.parent is Some ==> self.move_done != Some(
                p.move_done.unwrap().reverse(),
            )),
        }
    }

    /// The recorded moves of a direct node hold no move that undoes the one
    /// before it.
    pub proof fn lemma_direct_path(self)
        requires
            self.wf(),
            self.direct(),
        ensures
            no_undo(self.path()),
        decreases self,
    {
        match self.parent {
            None => {},
            Some(p) => {
                p.lemma_direct_path();
                let path = self.path();
                assert forall|i: int| 0 <= i < path.len() - 1 implies path[i + 1] != (
                #[trigger] path[i]).reverse() by {
                    if i < path.len() - 2 {
                        assert(path[i] == p.path()[i] && path[i + 1] == p.path()[i + 1]);
                    } else {
                        assert(p.parent is Some);
                        assert(path[i] == p.move_done.unwrap());
                    }
                }
            },
        }
    }

    /// The recorded moves of a linked node lead from the root's board to
    /// the node's own.
    pub proof fn lemma_linked_path(self)
        requires
            self.linked(),
        ensures
            self.root().leads_to(self.path(), self.board),
            self.path().len() == self.depth(),
        decreases self,
    {
        match self.parent {
            None => {},
            Some(p) => {
                p.lemma_linked_path();
                self.root().lemma_play_push(p.path(), self.move_done.unwrap());
            },
        }
    }
}

/// A node of the search tree.
#[derive(Debug)]
pub struct Node {
    taquin: Taquin,
    cost: u32,
    heuristic: u32,
    // Move made on the parent node to get this node
    move_done: Option<Move>,
    // The parent node, shared by its children
    parent_node: Option<Rc<Node>>,
}

impl View for Node {
    type V = NodeModel;

    closed spec fn view(&self) -> NodeModel {
        self.model()
    }
}

/// `Rc::clone`: another pointer to the value that `node` points to.  The
/// value itself is not copied, so the result stands for the same node.
#[verifier::external_body]
fn share(node: &Rc<Node>) -> (r: Rc<Node>)
    ensures
        r == *node,
{
    Rc::clone(node)
}

impl Node {
    /// The node and its predecessors as a mathematical value.
    pub closed spec fn model(&self) -> NodeModel
        decreases self,
    {
        NodeModel {
            board: self.taquin@,
            cost: self.cost,
            heuristic: self.heuristic,
            move_done: self.move_done,
            parent: match self.parent_node {
                None => None,
                Some(p) => Some(Box::new(p.model())),
            },
        }
    }

    /// Whether the node's board and those of all its predecessors are well
    /// formed, and each node that has a predecessor records a move.
    pub closed spec fn wf(&self) -> bool
        decreases self,
    {
        &&& self.taquin.wf()
        &&& match self.parent_node {
            None => true,
            Some(p) => self.move_done is Some && p.wf(),
        }
    }

    /// A well-formed node has a well-formed model.
    pub proof fn lemma_wf(&self)
        requires
            self.wf(),
        ensures
            self@.wf(),
        decreases self,
    {
        self.taquin.lemma_wf();
        match self.parent_node {
            None => {},
            Some(p) => {
                p.lemma_wf();
            },
        }
    }

    /// A node for board `t`, reached at cost `c` with estimate `h` by move
    /// `m` from `parent`.
    pub fn new(t: Taquin, c: u32, h: u32, m: Option<Move>, parent: Option<Rc<Node>>) -> (node: Node)
        requires
            t.wf(),
            parent matches Some(p) ==> m is Some && p.wf(),
        ensures
            node.wf(),
            node@.board == t@,
            node@.cost == c,
            node@.heuristic == h,
            node@.move_done == m,
            match parent {
                None => node@.parent is None,
                Some(p) => node@.parent == Some(Box::new(p@)),
            },
    {
        Node { taquin: t, cost: c, heuristic: h, move_done: m, parent_node: parent }
    }

    /// The node's estimate.
    pub fn get_heuristic(&self) -> (h: u32)
        ensures
            h == self@.heuristic,
    {
        self.heuristic
    }

    /// The cost of the way to the node.
    pub fn get_cost(&self) -> (c: u32)
        ensures
            c == self@.cost,
    {
        self.cost
    }

    /// Sets the cost of the way to the node and the node's estimate.
    pub fn set_costs(&mut self, cost: u32, heuristic: u32)
        ensures
            final(self)@ == (NodeModel { cost, heuristic, ..old(self)@ }),
            final(self).wf() == old(self).wf(),
    {
        self.cost = cost;
        self.heuristic = heuristic;
    }

    /// The node's board.
    pub fn taquin(&self) -> (t: &Taquin)
        ensures
            t@ == self@.board,
            self.wf() ==> t.wf(),
    {
        &self.taquin
    }

    /// One node for each move open on this node's board, in the order in
    /// which the board offers them.  Each holds the board after that move,
    /// the move, and this node as its predecessor; its cost is this node's
    /// and its estimate 0, both for the caller to set.
    pub fn succesors(&self) -> (res: Vec<Node>)
        requires
            self.wf(),
        ensures
            res.len() == self@.board.available().len(),
            forall|i: int|
                0 <= i < res.len() ==> {
                    let child = #[trigger] res[i];
                    &&& child.wf()
                    &&& child@.move_done == Some(self@.board.available()[i])
                    &&& child@.board == self@.board.slide(self@.board.available()[i])
                    &&& child@.cost == self@.cost
                    &&& child@.heuristic == 0
                    &&& child@.parent == Some(Box::new(self@))
                },
    {
        let mut res: Vec<Node> = Vec::new();
        let available_moves = self.taquin.available_move();
        let self_ref = Rc::new(self.clone());
        let mut i: usize = 0;
        while i < available_moves.len()
            invariant
                self.wf(),
                self_ref.wf(),
                self_ref@ == self@,
                0 <= i <= available_moves.len(),
                available_moves@ == self@.board.available(),
                forall|k: int|
                    0 <= k < available_moves.len() ==> self@.board.can_move(
                        #[trigger] available_moves[k],
                    ),
                res.len() == i,
                forall|k: int|
                    0 <= k < i ==> {
                        let child = #[trigger] res[k];
                        &&& child.wf()
                        &&& child@.move_done == Some(available_moves[k])
                        &&& child@.board == self@.board.slide(available_moves[k])
                        &&& child@.cost == self@.cost
                        &&& child@.heuristic == 0
                        &&& child@.parent == Some(Box::new(self@))
                    },
            decreases available_moves.len() - i,
        {
            let m = available_moves[i];
            let mut new_taquin = self.taquin.clone();
            new_taquin.make_move(m);
            let child_node = Node::new(
                new_taquin,
                self.get_cost(),
                0,
                Some(m),
                Some(share(&self_ref)),
            );
            res.push(child_node);
            i = i + 1;
        }
        res
    }

    /// The moves that lead from the node without predecessor to this one,
    /// in the order in which they were made.  A node without predecessor
    /// gives the empty sequence.
    pub fn reconstruct_moves(&self) -> (res: Vec<Move>)
        requires
            self.wf(),
        ensures
            res@ == self@.path(),
            self@.parent is None ==> res@.len() == 0,
    {
        let mut back: Vec<Move> = Vec::new();
        let mut node: &Node = self;
        while node.parent_node.is_some()
            invariant
                node.wf(),
                self@.path() == node@.path() + back@.reverse(),
            decreases node@.depth(),
        {
            back.push(node.move_done.unwrap());
            proof {
                let p = node.parent_node.unwrap();
                assert(node@.path() == p@.path().push(node.move_done.unwrap()));
                assert(back@.reverse() =~= seq![node.move_done.unwrap()] + back@.drop_last().reverse());
                assert(node@.path() + back@.drop_last().reverse() =~= p@.path() + back@.reverse());
            }
            node = &**node.parent_node.as_ref().unwrap();
        }
        let mut res: Vec<Move> = Vec::new();
        let mut k: usize = back.len();
        while k > 0
            invariant
                0 <= k <= back.len(),
                res@ == back@.reverse().subrange(0, back.len() - k),
            decreases k,
        {
            k = k - 1;
            res.push(back[k]);
            assert(res@ =~= back@.reverse().subrange(0, back.len() - k));
        }
        assert(res@ =~= back@.reverse());
        assert(self@.path() =~= back@.reverse());
        res
    }
}

impl Clone for Node {
    /// A copy of the node that shares the predecessor.
    fn clone(&self) -> (r: Self)
        ensures
            r@ == self@,
            r.wf() == self.wf(),
    {
        Node {
            taquin: self.taquin.clone(),
            cost: self.cost,
            heuristic: self.heuristic,
            move_done: self.move_done,
            parent_node: match &self.parent_node {
                None => None,
                Some(p) => Some(share(p)),
            },
        }
    }
}

impl PartialEq for Node {
    /// Two nodes are equal when their boards are, whatever their costs and
    /// predecessors.
    fn eq(&self, other: &Self) -> (r: bool) {
        self.taquin == other.taquin
    }
}

impl vstd::std_specs::cmp::PartialEqSpecImpl for Node {
    open spec fn obeys_eq_spec() -> bool {
        true
    }

    open spec fn eq_spec(&self, other: &Self) -> bool {
        self@.board == other@.board
    }
}

impl Eq for Node {

}

} // verus!
