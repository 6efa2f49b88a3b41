//! The store of the search: one node for each board met so far, found again
//! by board.
//!
//! Each node has a handle, its place in the store.  Boards are found through
//! a number computed from their cells: the store keeps, for each such number,
//! the latest handle whose board has it, and for each handle the one before
//! it with the same number.

use vstd::prelude::*;
use std::collections::HashMap;
use crate::ai::Node;
use crate::board::{Board, Taquin};

verus! {

broadcast use vstd::std_specs::hash::group_hash_axioms;

/// Whether `b` is one of `boards`.
pub open spec fn known(boards: Seq<Board>, b: Board) -> bool {
    exists|i: int| 0 <= i < boards.len() && #[trigger] boards[i] == b
}

/// The store of nodes.
pub struct Arena {
    nodes: Vec<Node>,
    chain: Vec<Option<usize>>,
    heads: HashMap<u64, usize>,
}

impl Arena {
    /// The nodes of the store, by handle.
    pub closed spec fn nodes(&self) -> Seq<Node> {
        self.nodes@
    }

    /// The number of nodes in the store.
    pub open spec fn len(&self) -> nat {
        self.nodes().len()
    }

    /// The boards of the nodes, by handle.
    pub open spec fn boards(&self) -> Seq<Board> {
        Seq::new(self.nodes().len(), |i: int| self.nodes()[i]@.board)
    }

    /// The number under which the board of handle `i` is filed.
    pub open spec fn key(&self, i: int) -> u64 {
        self.nodes()[i]@.board.key()
    }

    /// The links between handles with the same number are in order: each
    /// handle points to the nearest one before it with its number, and each
    /// number to the last handle that has it.
    pub closed spec fn filed(&self) -> bool {
        &&& self.chain@.len() == self.nodes@.len()
        &&& forall|h: int|
            0 <= h < self.nodes@.len() ==> match #[trigger] self.chain@[h] {
                Some(p) => p < h && self.key(p as int) == self.key(h) && forall|i: int|
                    p < i < h ==> #[trigger] self.key(i) != self.key(h),
                None => forall|i: int| 0 <= i < h ==> #[trigger] self.key(i) != self.key(h),
            }
        &&& forall|k: u64| #[trigger]
            self.heads@.contains_key(k) ==> self.heads@[k] < self.nodes@.len() && self.key(
                self.heads@[k] as int,
            ) == k && forall|i: int|
                self.heads@[k] < i < self.nodes@.len() ==> #[trigger] self.key(i) != k
        &&& forall|i: int|
            0 <= i < self.nodes@.len() ==> self.heads@.contains_key(#[trigger] self.key(i))
    }

    /// The store is in order: its nodes are well formed, no two have the
    /// same board, and the links by which boards are found are right.
    pub open spec fn inv(&self) -> bool {
        &&& self.filed()
        &&& forall|i: int| 0 <= i < self.len() ==> (#[trigger] self.nodes()[i]).wf()
        &&& forall|i: int, j: int|
            0 <= i < self.len() && 0 <= j < self.len() && #[trigger] self.boards()[i]
                == #[trigger] self.boards()[j] ==> i == j
    }

    /// The store holds no more nodes than a machine word counts.
    pub proof fn lemma_len(&self)
        ensures
            self.len() <= usize::MAX,
    {
        assert(self.nodes.len() == self.nodes@.len());
    }

    /// A store without nodes.
    pub fn new() -> (arena: Arena)
        ensures
            arena.inv(),
            arena.len() == 0,
    {
        Arena { nodes: Vec::new(), chain: Vec::new(), heads: HashMap::new() }
    }

    /// The node with handle `h`.
    pub fn node(&self, h: usize) -> (node: &Node)
        requires
            h < self.len(),
        ensures
            *node == self.nodes()[h as int],
    {
        &self.nodes[h]
    }

    /// Adds a node whose board the store does not have yet, and returns its
    /// handle.
    pub fn push(&mut self, node: Node) -> (h: usize)
        requires
            old(self).inv(),
            node.wf(),
            !known(old(self).boards(), node@.board),
        ensures
            final(self).inv(),
            h == old(self).len(),
            final(self).nodes() == old(self).nodes().push(node),
    {
        let k = node.taquin().key();
        let h = self.nodes.len();
        let before = match self.heads.get(&k) {
            Some(p) => Some(*p),
            None => None,
        };
        self.chain.push(before);
        self.heads.insert(k, h);
        self.nodes.push(node);
        proof {
            assert forall|i: int| 0 <= i < old(self).len() implies self.key(i) == old(self).key(
                i,
            ) && self.boards()[i] == old(self).boards()[i] by {}
            assert(self.key(h as int) == k);
            assert forall|i: int, j: int|
                0 <= i < self.len() && 0 <= j < self.len() && #[trigger] self.boards()[i]
                    == #[trigger] self.boards()[j] implies i == j by {
                if i == h && j != h {
                    assert(old(self).boards()[j] == node@.board);
                }
                if j == h && i != h {
                    assert(old(self).boards()[i] == node@.board);
                }
                if i != h && j != h {
                    assert(old(self).boards()[i] == old(self).boards()[j]);
                }
            }
            assert forall|g: int| 0 <= g < self.nodes@.len() implies match #[trigger] self.chain@[g] {
                Some(p) => p < g && self.key(p as int) == self.key(g) && forall|i: int|
                    p < i < g ==> #[trigger] self.key(i) != self.key(g),
                None => forall|i: int| 0 <= i < g ==> #[trigger] self.key(i) != self.key(g),
            } by {
                if g < h {
                    assert(self.chain@[g] == old(self).chain@[g]);
                } else {
                    match before {
                        Some(p) => {
                            assert(old(self).heads@.contains_key(k));
                        },
                        None => {
                            assert forall|i: int| 0 <= i < g implies #[trigger] self.key(i)
                                != self.key(g) by {
                                assert(old(self).heads@.contains_key(old(self).key(i)));
                            }
                        },
                    }
                }
            }
            assert forall|k2: u64| #[trigger]
                self.heads@.contains_key(k2) implies self.heads@[k2] < self.nodes@.len()
                && self.key(self.heads@[k2] as int) == k2 && forall|i: int|
                self.heads@[k2] < i < self.nodes@.len() ==> #[trigger] self.key(i) != k2 by {
                if k2 != k {
                    assert(old(self).heads@.contains_key(k2));
                }
            }
            assert forall|i: int| 0 <= i < self.nodes@.len() implies self.heads@.contains_key(
                #[trigger] self.key(i),
            ) by {
                if i < h {
                    assert(old(self).heads@.contains_key(old(self).key(i)));
                }
            }
        }
        h
    }

    /// Puts `node` in the place of the node with handle `h`, which has the
    /// same board.
    pub fn replace(&mut self, h: usize, node: Node)
        requires
            old(self).inv(),
            h < old(self).len(),
            node.wf(),
            node@.board == old(self).boards()[h as int],
        ensures
            final(self).inv(),
            final(self).nodes() == old(self).nodes().update(h as int, node),
    {
        self.nodes[h] = node;
        proof {
            assert forall|i: int| 0 <= i < old(self).len() implies self.key(i) == old(self).key(
                i,
            ) && self.boards()[i] == old(self).boards()[i] by {}
            assert(self.filed());
            assert forall|i: int, j: int|
                0 <= i < self.len() && 0 <= j < self.len() && #[trigger] self.boards()[i]
                    == #[trigger] self.boards()[j] implies i == j by {
                assert(old(self).boards()[i] == old(self).boards()[j]);
            }
        }
    }

    /// The handle of the node whose board is that of `t`, if the store has
    /// one.
    pub fn find(&self, t: &Taquin) -> (found: Option<usize>)
        requires
            self.inv(),
            t.wf(),
        ensures
            match found {
                Some(h) => h < self.len() && self.boards()[h as int] == t@,
                None => !known(self.boards(), t@),
            },
    {
        let k = t.key();
        let mut cur: Option<usize> = match self.heads.get(&k) {
            Some(h) => Some(*h),
            None => None,
        };
        loop
            invariant
                self.inv(),
                t.wf(),
                k == t@.key(),
                match cur {
                    Some(h) => h < self.nodes@.len() && self.key(h as int) == k && forall|i: int|
                        h < i < self.nodes@.len() && #[trigger] self.key(i) == k
                            ==> self.boards()[i] != t@,
                    None => forall|i: int|
                        0 <= i < self.nodes@.len() && #[trigger] self.key(i) == k
                            ==> self.boards()[i] != t@,
                },
            decreases
                    match cur {
                        Some(h) => h + 1,
                        None => 0,
                    },
        {
            match cur {
                None => {
                    assert forall|i: int| 0 <= i < self.boards().len() implies #[trigger] self.boards()[i] != t@ by {
                        if self.boards()[i] == t@ {
                            assert(self.key(i) == k);
                        }
                    }
                    return None;
                },
                Some(h) => {
                    if *self.nodes[h].taquin() == *t {
                        return Some(h);
                    }
                    cur = self.chain[h];
                },
            }
        }
    }
}

} // verus!
