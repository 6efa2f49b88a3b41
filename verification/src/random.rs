//! Scrambled boards: the solved board after a long random walk of legal
//! moves, so that the solved board can always be reached again.

use vstd::prelude::*;
use rand::rngs::ThreadRng;
use rand::seq::SliceRandom;
use crate::board::{Board, Move, Taquin, TaquinError, MAX_SIZE};

verus! {

/// The `rand` crate's handle to the random number generator of a thread.
#[verifier::external_type_specification]
#[verifier::external_body]
pub struct ExThreadRng(ThreadRng);

/// `rand::thread_rng`: the random number generator of the running thread.
#[verifier::external_body]
fn generator() -> (rng: ThreadRng) {
    rand::thread_rng()
}

/// `SliceRandom::choose` on a sequence that is not empty: one of its moves,
/// picked by `rng`.  Nothing is said of which.
#[verifier::external_body]
fn pick(moves: &Vec<Move>, rng: &mut ThreadRng) -> (m: Move)
    requires
        moves.len() > 0,
    ensures
        moves@.contains(m),
{
    *moves.choose(rng).unwrap()
}

impl Board {
    /// On a well-formed board the blank can always travel.
    pub proof fn lemma_some_move(self)
        requires
            self.wf(),
        ensures
            self.available().len() > 0,
    {
        self.lemma_available();
        if self.can_move(Move::Up) {
            assert(self.available().contains(Move::Up));
        } else {
            assert(self.can_move(Move::Down));
            assert(self.available().contains(Move::Down));
        }
    }
}

impl Taquin {
    /// A scrambled board of side `size`: the solved board after
    /// `size * size * 1000` legal moves, each picked at random among those
    /// open at that point, so that the solved board can be reached from it.
    /// A side under 2 is turned down; one above `MAX_SIZE` is not to be
    /// asked for.
    pub fn new_rand(size: usize) -> (r: Result<Taquin, TaquinError>)
        requires
            size <= MAX_SIZE,
        ensures
            size < 2 <==> r is Err,
            r is Err ==> r == Err::<Taquin, TaquinError>(TaquinError::InvalidSize),
            r matches Ok(t) ==> t.wf() && t@.size() == size && Board::solved(size as int).reaches(
                t@,
            ),
            r matches Ok(t) ==> Board::solved(size as int).walks_to(
                t@,
                (size * size * 1000) as nat,
            ),
            r matches Ok(t) ==> t@.reaches(Board::solved(size as int)),
    {
        let mut t = match Taquin::new(size) {
            Ok(t) => t,
            Err(e) => {
                return Err(e);
            },
        };
        assert(size * size * 1000 <= 65535 * 65535 * 1000) by (nonlinear_arith)
            requires
                2 <= size <= 65535,
        ;
        let n: u64 = (size as u64) * (size as u64) * 1000;
        let mut rng = generator();
        let ghost solved = Board::solved(size as int);
        let ghost path = Seq::<Move>::empty();
        proof {
            Board::lemma_solved_wf(size as int);
        }
        let mut i: u64 = 0;
        while i < n
            invariant
                0 <= i <= n,
                t.wf(),
                solved.wf(),
                solved.size() == size,
                path.len() == i,
                solved.leads_to(path, t@),
            decreases n - i,
        {
            proof {
                t.lemma_wf();
                t@.lemma_some_move();
            }
            let mouvs = t.available_move();
            let m = pick(&mouvs, &mut rng);
            proof {
                solved.lemma_play_push(path, m);
                path = path.push(m);
            }
            t.make_move(m);
            i = i + 1;
        }
        proof {
            solved.lemma_play_wf(path);
            solved.lemma_way_back(path, t@);
            assert(path.len() == size * size * 1000);
            assert(Board::solved(size as int).leads_to(path, t@));
        }
        Ok(t)
    }
}

} // verus!
