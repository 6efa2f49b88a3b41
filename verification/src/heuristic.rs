//! Two estimates of how far one board is from another.

use vstd::prelude::*;
use crate::best_first::capped;
use crate::board::{Board, Cell, Move, Taquin, TaquinError, MAX_SIZE};

verus! {

/// The sum of `f(x, y)` over the first `n` rows of column `x`.
pub open spec fn sum_column(f: spec_fn(int, int) -> int, x: int, n: int) -> int
    decreases n,
{
    if n <= 0 {
        0
    } else {
        sum_column(f, x, n - 1) + f(x, n - 1)
    }
}

/// The sum of `f(x, y)` over the first `n` rows of the first `m` columns.
pub open spec fn sum_grid(f: spec_fn(int, int) -> int, m: int, n: int) -> int
    decreases m,
{
    if m <= 0 {
        0
    } else {
        sum_grid(f, m - 1, n) + sum_column(f, m - 1, n)
    }
}

/// The distance between two places, counted in steps along rows and columns.
pub open spec fn steps(x1: int, y1: int, x2: int, y2: int) -> int {
    (if x1 >= x2 {
        x1 - x2
    } else {
        x2 - x1
    }) + (if y1 >= y2 {
        y1 - y2
    } else {
        y2 - y1
    })
}

impl Board {
    /// A place where the board holds cell `c`.  On a well-formed board that
    /// holds `c` there is one such place.
    pub open spec fn place_of(self, c: Cell) -> (int, int) {
        choose|x: int, y: int| self.inside(x, y) && #[trigger] self.at(x, y) == c
    }

    /// 1 where the two boards hold different cells, 0 where they agree.
    pub open spec fn differs(self, other: Board) -> spec_fn(int, int) -> int {
        |x: int, y: int|
            if self.at(x, y) != other.at(x, y) {
                1int
            } else {
                0int
            }
    }

    /// How far the cell in column `x`, row `y` of this board lies from where
    /// `other` holds the same cell.
    pub open spec fn displacement(self, other: Board) -> spec_fn(int, int) -> int {
        |x: int, y: int|
            {
                let p = other.place_of(self.at(x, y));
                steps(x, y, p.0, p.1)
            }
    }

    /// The number of places where the two boards hold different cells, the
    /// blank counted as a cell like any other.
    pub open spec fn hamming(self, other: Board) -> int {
        sum_grid(self.differs(other), self.size(), self.size())
    }

    /// The sum, over all cells of this board, the blank among them, of the
    /// distance from the cell's place here to its place on `other`.
    pub open spec fn manhattan(self, other: Board) -> int {
        sum_grid(self.displacement(other), self.size(), self.size())
    }

    /// On a well-formed board a cell is found where it lies.
    pub proof fn lemma_place_of(self, x: int, y: int)
        requires
            self.wf(),
            self.inside(x, y),
        ensures
            self.place_of(self.at(x, y)) == (x, y),
    {
        let p = self.place_of(self.at(x, y));
        assert(self.inside(p.0, p.1) && self.at(p.0, p.1) == self.at(x, y));
    }

    /// A well-formed board holds every cell of a well-formed board of the
    /// same side.
    pub proof fn lemma_same_cells(self, other: Board, x: int, y: int)
        requires
            self.wf(),
            other.wf(),
            self.size() == other.size(),
            self.inside(x, y),
        ensures
            other.holds(self.at(x, y)),
            other.inside(other.place_of(self.at(x, y)).0, other.place_of(self.at(x, y)).1),
            other.at(other.place_of(self.at(x, y)).0, other.place_of(self.at(x, y)).1) == self.at(
                x,
                y,
            ),
    {
        let c = self.at(x, y);
        assert(c.fits(self.size()));
        match c {
            Cell::Empty => {
                assert(other.inside(other.ex, other.ey) && other.at(other.ex, other.ey) == c);
            },
            Cell::Num(v) => {
                assert(other.holds(Cell::Num(v)));
            },
        }
    }
}

/// Whether the estimate `est` of the distance to `goal` is consistent: it is
/// 0 on `goal`, never negative, and on no board of the side of `goal` more
/// than 1 above what it is after one legal move.
pub open spec fn consistent(est: spec_fn(Board) -> int, goal: Board) -> bool {
    &&& est(goal) == 0
    &&& forall|b: Board| b.wf() && b.size() == goal.size() ==> 0 <= #[trigger] est(b)
    &&& forall|b: Board, m: Move|
        b.wf() && b.size() == goal.size() && b.can_move(m) ==> est(b) <= #[trigger] est(
            b.slide(m),
        ) + 1
}

/// Whether the function `f`, asked how far a board of the side of `goal` is
/// from `goal`, answers `est` of that board.
pub open spec fn computes<F: Fn(&Taquin, &Taquin) -> Result<u32, TaquinError>>(
    f: &F,
    est: spec_fn(Board) -> int,
    goal: Board,
) -> bool {
    forall|a: Taquin, b: Taquin, r: Result<u32, TaquinError>|
        a.wf() && b.wf() && b@ == goal && a@.size() == goal.size() && #[trigger] call_ensures(
            f,
            (&a, &b),
            r,
        ) ==> (r matches Ok(v) && v == est(a@))
}

/// Whether the function `f` can be asked how far any board is from any
/// other of the same side, and then answers with a number.
pub open spec fn estimates<F: Fn(&Taquin, &Taquin) -> Result<u32, TaquinError>>(f: &F) -> bool {
    &&& forall|a: Taquin, b: Taquin|
        a.wf() && b.wf() && a@.size() == b@.size() ==> call_requires(f, (&a, &b))
    &&& forall|a: Taquin, b: Taquin, r: Result<u32, TaquinError>|
        a.wf() && b.wf() && a@.size() == b@.size() && #[trigger] call_ensures(f, (&a, &b), r)
            ==> r is Ok
}

/// Whether what `f` answers, asked how far a board is from `goal`, is a
/// consistent estimate.
pub open spec fn steady<F: Fn(&Taquin, &Taquin) -> Result<u32, TaquinError>>(
    f: &F,
    goal: Board,
) -> bool {
    exists|est: spec_fn(Board) -> int| consistent(est, goal) && computes(f, est, goal)
}

/// A consistent estimate is, on each board along a legal sequence, at most
/// the number of moves still to come above what it is at the end.
pub proof fn lemma_consistent_along(
    est: spec_fn(Board) -> int,
    goal: Board,
    start: Board,
    path: Seq<Move>,
    i: int,
)
    requires
        consistent(est, goal),
        start.wf(),
        start.size() == goal.size(),
        start.playable(path),
        0 <= i <= path.len(),
    ensures
        est(start.play(path.take(i))) <= (path.len() - i) + est(start.play(path)),
        start.playable(path.take(i)),
        start.play(path.take(i)).wf(),
        start.play(path.take(i)).size() == goal.size(),
        0 <= est(start.play(path.take(i))),
    decreases path.len() - i,
{
    start.lemma_prefix(path, i);
    start.lemma_play_wf(path.take(i));
    if i == path.len() {
        assert(path.take(i) =~= path);
    } else {
        lemma_consistent_along(est, goal, start, path, i + 1);
    }
}

impl Board {
    /// A board is at Hamming distance 0 from itself.
    pub proof fn lemma_hamming_self(self)
        ensures
            self.hamming(self) == 0,
    {
        let zero = |x: int, y: int| 0int;
        lemma_sum_grid_but_one(zero, self.differs(self), self.size(), self.size(), -1, -1);
        lemma_sum_grid_bound(zero, self.size(), self.size(), 0);
    }

    /// A well-formed board is at Manhattan distance 0 from itself.
    pub proof fn lemma_manhattan_self(self)
        requires
            self.wf(),
        ensures
            self.manhattan(self) == 0,
    {
        let zero = |x: int, y: int| 0int;
        let f = self.displacement(self);
        assert forall|x: int, y: int|
            0 <= x < self.size() && 0 <= y < self.size() implies #[trigger] zero(x, y) == f(
            x,
            y,
        ) by {
            self.lemma_place_of(x, y);
        }
        lemma_sum_grid_but_one(zero, f, self.size(), self.size(), -1, -1);
        lemma_sum_grid_bound(zero, self.size(), self.size(), 0);
    }

    /// Between well-formed boards of the same side the Manhattan distance
    /// is at least the Hamming distance: a cell that is out of place lies at
    /// least one step from its place.
    pub proof fn lemma_manhattan_dominates(self, other: Board)
        requires
            self.wf(),
            other.wf(),
            self.size() == other.size(),
        ensures
            self.hamming(other) <= self.manhattan(other),
    {
        let n = self.size();
        assert forall|x: int, y: int| 0 <= x < n && 0 <= y < n implies #[trigger] self.differs(
            other,
        )(x, y) <= self.displacement(other)(x, y) by {
            self.lemma_same_cells(other, x, y);
        }
        lemma_sum_grid_le(self.differs(other), self.displacement(other), n, n);
    }

    /// Between well-formed boards of a side up to 1290 the Manhattan
    /// distance fits in a `u32`.
    pub proof fn lemma_manhattan_fits(self, other: Board)
        requires
            self.wf(),
            other.wf(),
            self.size() == other.size(),
            self.size() <= 1290,
        ensures
            0 <= self.manhattan(other) <= u32::MAX,
    {
        let n = self.size();
        let f = self.displacement(other);
        assert forall|x: int, y: int| 0 <= x < n && 0 <= y < n implies 0 <= #[trigger] f(x, y) <= 2
            * n by {
            self.lemma_same_cells(other, x, y);
        }
        lemma_sum_grid_bound(f, n, n, 2 * n);
        assert((2 * n) * (n * n) <= 4294967295) by (nonlinear_arith)
            requires
                2 <= n <= 1290,
        ;
    }

    /// One legal move changes at most two places, so it takes a board at
    /// most 2 further from any board of the same side, by either distance.
    pub proof fn lemma_step_adds_two(self, m: Move, other: Board)
        requires
            self.wf(),
            self.can_move(m),
            other.size() == self.size(),
        ensures
            self.slide(m).hamming(other) <= self.hamming(other) + 2,
            self.slide(m).manhattan(other) <= self.manhattan(other) + 2,
    {
        let next = self.slide(m);
        let n = self.size();
        let (px, py) = (self.ex, self.ey);
        let (qx, qy) = (self.ex + m.dx(), self.ey + m.dy());
        assert(self.square());
        assert forall|x: int, y: int|
            0 <= x < n && 0 <= y < n && !(x == px && y == py) && !(x == qx && y == qy)
            implies #[trigger] next.at(x, y) == self.at(x, y) by {}
        assert(next.at(px, py) == self.at(qx, qy));
        assert(next.at(qx, qy) == self.at(px, py));
        lemma_sum_grid_but_two(self.differs(other), next.differs(other), n, px, py, qx, qy);
        lemma_sum_grid_but_two(
            self.displacement(other),
            next.displacement(other),
            n,
            px,
            py,
            qx,
            qy,
        );
    }

    /// A board that `path` makes of `goal` is, by either distance, at most
    /// twice as far from `goal` as `path` is long.
    pub proof fn lemma_within_twice_the_moves(self, path: Seq<Move>)
        requires
            self.wf(),
            self.playable(path),
        ensures
            self.play(path).hamming(self) <= 2 * path.len(),
            self.play(path).manhattan(self) <= 2 * path.len(),
        decreases path.len(),
    {
        if path.len() == 0 {
            self.lemma_hamming_self();
            self.lemma_manhattan_self();
        } else {
            let before = self.play(path.drop_last());
            self.lemma_within_twice_the_moves(path.drop_last());
            self.lemma_play_wf(path.drop_last());
            before.lemma_step_adds_two(path.last(), self);
        }
    }
}

/// A sum over a column of values between 0 and `c` lies between 0 and `c`
/// times the number of rows.
pub proof fn lemma_sum_column_bound(f: spec_fn(int, int) -> int, x: int, n: int, c: int)
    requires
        0 <= n,
        forall|y: int| 0 <= y < n ==> 0 <= #[trigger] f(x, y) <= c,
    ensures
        0 <= sum_column(f, x, n) <= c * n,
    decreases n,
{
    if n > 0 {
        lemma_sum_column_bound(f, x, n - 1, c);
        assert(c * (n - 1) + c == c * n) by (nonlinear_arith);
    } else {
        assert(c * n == 0) by (nonlinear_arith)
            requires
                n == 0,
        ;
    }
}

/// A sum over a grid of values between 0 and `c` lies between 0 and `c`
/// times the number of places.
pub proof fn lemma_sum_grid_bound(f: spec_fn(int, int) -> int, m: int, n: int, c: int)
    requires
        0 <= m,
        0 <= n,
        forall|x: int, y: int| 0 <= x < m && 0 <= y < n ==> 0 <= #[trigger] f(x, y) <= c,
    ensures
        0 <= sum_grid(f, m, n) <= c * (m * n),
    decreases m,
{
    if m > 0 {
        lemma_sum_grid_bound(f, m - 1, n, c);
        lemma_sum_column_bound(f, m - 1, n, c);
        assert(c * ((m - 1) * n) + c * n == c * (m * n)) by (nonlinear_arith);
    } else {
        assert(c * (m * n) == 0) by (nonlinear_arith)
            requires
                m == 0,
        ;
    }
}

/// Where one function is nowhere on a column above another, its sum over
/// the column is not above the other's.
pub proof fn lemma_sum_column_le(
    f: spec_fn(int, int) -> int,
    g: spec_fn(int, int) -> int,
    x: int,
    n: int,
)
    requires
        forall|y: int| 0 <= y < n ==> #[trigger] f(x, y) <= g(x, y),
    ensures
        sum_column(f, x, n) <= sum_column(g, x, n),
    decreases n,
{
    if n > 0 {
        lemma_sum_column_le(f, g, x, n - 1);
    }
}

/// Where one function is nowhere on a grid above another, its sum over the
/// grid is not above the other's.
pub proof fn lemma_sum_grid_le(
    f: spec_fn(int, int) -> int,
    g: spec_fn(int, int) -> int,
    m: int,
    n: int,
)
    requires
        forall|x: int, y: int| 0 <= x < m && 0 <= y < n ==> #[trigger] f(x, y) <= g(x, y),
    ensures
        sum_grid(f, m, n) <= sum_grid(g, m, n),
    decreases m,
{
    if m > 0 {
        lemma_sum_grid_le(f, g, m - 1, n);
        lemma_sum_column_le(f, g, m - 1, n);
    }
}

/// Two functions that agree on a column but at one place have sums over it
/// that differ by what they differ by at that place.
pub proof fn lemma_sum_column_but_one(
    f: spec_fn(int, int) -> int,
    g: spec_fn(int, int) -> int,
    x: int,
    n: int,
    px: int,
    py: int,
)
    requires
        forall|y: int| 0 <= y < n && !(x == px && y == py) ==> #[trigger] f(x, y) == g(x, y),
    ensures
        sum_column(g, x, n) == sum_column(f, x, n) + if x == px && 0 <= py < n {
            g(px, py) - f(px, py)
        } else {
            0
        },
    decreases n,
{
    if n > 0 {
        lemma_sum_column_but_one(f, g, x, n - 1, px, py);
    }
}

/// Two functions that agree on a grid but at one place have sums over it
/// that differ by what they differ by at that place.
pub proof fn lemma_sum_grid_but_one(
    f: spec_fn(int, int) -> int,
    g: spec_fn(int, int) -> int,
    m: int,
    n: int,
    px: int,
    py: int,
)
    requires
        forall|x: int, y: int|
            0 <= x < m && 0 <= y < n && !(x == px && y == py) ==> #[trigger] f(x, y) == g(x, y),
    ensures
        sum_grid(g, m, n) == sum_grid(f, m, n) + if 0 <= px < m && 0 <= py < n {
            g(px, py) - f(px, py)
        } else {
            0
        },
    decreases m,
{
    if m > 0 {
        lemma_sum_grid_but_one(f, g, m - 1, n, px, py);
        lemma_sum_column_but_one(f, g, m - 1, n, px, py);
    }
}

/// Two functions that agree on a grid but at two places have sums over it
/// that differ by what they differ by at those places.
pub proof fn lemma_sum_grid_but_two(
    f: spec_fn(int, int) -> int,
    g: spec_fn(int, int) -> int,
    n: int,
    px: int,
    py: int,
    qx: int,
    qy: int,
)
    requires
        0 <= px < n && 0 <= py < n,
        0 <= qx < n && 0 <= qy < n,
        !(px == qx && py == qy),
        forall|x: int, y: int|
            0 <= x < n && 0 <= y < n && !(x == px && y == py) && !(x == qx && y == qy)
                ==> #[trigger] f(x, y) == g(x, y),
    ensures
        sum_grid(g, n, n) == sum_grid(f, n, n) + (g(px, py) - f(px, py)) + (g(qx, qy) - f(qx, qy)),
{
    let h = |x: int, y: int|
        if x == px && y == py {
            g(x, y)
        } else {
            f(x, y)
        };
    lemma_sum_grid_but_one(f, h, n, n, px, py);
    lemma_sum_grid_but_one(h, g, n, n, qx, qy);
}

/// The count of places read so far, and one more, stays within the number
/// of cells, which fits in a `u32`.
proof fn lemma_room(n: int, x: int, y: int)
    requires
        2 <= n <= MAX_SIZE,
        0 <= x < n,
        0 <= y < n,
    ensures
        ((x * n) + y) + 1 <= n * n,
        n * n <= u32::MAX,
        1 * (x * n) == x * n,
        1 * y == y,
{
    assert(((x * n) + y) + 1 <= n * n && n * n <= 4294967295) by (nonlinear_arith)
        requires
            2 <= n <= 65535,
            0 <= x < n,
            0 <= y < n,
    ;
}

impl Taquin {
    /// The Hamming distance between two boards of the same side: the number
    /// of places where they hold different cells, the blank counted as a
    /// cell like any other.  Boards of different sides are turned down.
    pub fn heuristic_hamming(t1: &Taquin, t2: &Taquin) -> (r: Result<u32, TaquinError>)
        requires
            t1.wf(),
            t2.wf(),
        ensures
            t1@.size() != t2@.size() <==> r is Err,
            r is Err ==> r == Err::<u32, TaquinError>(TaquinError::SizeMismatch),
            r matches Ok(count) ==> count == t1@.hamming(t2@),
    {
        proof {
            t1.lemma_wf();
            t2.lemma_wf();
        }
        let n = t1.size();
        if n != t2.size() {
            return Err(TaquinError::SizeMismatch);
        }
        let ghost f = t1@.differs(t2@);
        let mut count: u32 = 0;
        let mut x: usize = 0;
        while x < n
            invariant
                t1.wf(),
                t2.wf(),
                t1@.wf(),
                n == t1@.size(),
                n == t2@.size(),
                0 <= x <= n,
                f == t1@.differs(t2@),
                count == sum_grid(f, x as int, n as int),
            decreases n - x,
        {
            let ghost column = count;
            let mut y: usize = 0;
            while y < n
                invariant
                    t1.wf(),
                    t2.wf(),
                    t1@.wf(),
                    n == t1@.size(),
                    n == t2@.size(),
                    0 <= x < n,
                    0 <= y <= n,
                    f == t1@.differs(t2@),
                    column == sum_grid(f, x as int, n as int),
                    count == column + sum_column(f, x as int, y as int),
                decreases n - y,
            {
                proof {
                    lemma_sum_grid_bound(f, x as int, n as int, 1);
                    lemma_sum_column_bound(f, x as int, y as int, 1);
                    lemma_room(n as int, x as int, y as int);
                }
                if t1.cell(x, y) != t2.cell(x, y) {
                    count = count + 1;
                }
                y = y + 1;
            }
            x = x + 1;
        }
        Ok(count)
    }

    /// The place where the board holds cell `c`.
    pub fn locate(&self, c: Cell) -> (p: (usize, usize))
        requires
            self.wf(),
            self@.holds(c),
        ensures
            self@.inside(p.0 as int, p.1 as int),
            self@.at(p.0 as int, p.1 as int) == c,
            self@.place_of(c) == (p.0 as int, p.1 as int),
    {
        proof {
            self.lemma_wf();
        }
        let n = self.size();
        let mut x: usize = 0;
        while x < n
            invariant
                self.wf(),
                self@.wf(),
                n == self@.size(),
                0 <= x <= n,
                forall|i: int, j: int| 0 <= i < x && 0 <= j < n ==> #[trigger] self@.at(i, j) != c,
            decreases n - x,
        {
            let mut y: usize = 0;
            while y < n
                invariant
                    self.wf(),
                    self@.wf(),
                    n == self@.size(),
                    0 <= x < n,
                    0 <= y <= n,
                    forall|i: int, j: int|
                        0 <= i < x && 0 <= j < n ==> #[trigger] self@.at(i, j) != c,
                    forall|j: int| 0 <= j < y ==> #[trigger] self@.at(x as int, j) != c,
                decreases n - y,
            {
                if self.cell(x, y) == c {
                    proof {
                        self@.lemma_place_of(x as int, y as int);
                    }
                    return (x, y);
                }
                y = y + 1;
            }
            x = x + 1;
        }
        proof {
            let (i, j) = choose|i: int, j: int| self@.inside(i, j) && #[trigger] self@.at(i, j) == c;
            assert(self@.at(i, j) != c);
        }
        (0, 0)
    }

    /// The Manhattan distance between two boards of the same side: the sum,
    /// over all cells of the first, the blank among them, of the number of
    /// steps along rows and columns from the cell's place there to its
    /// place on the second.  Boards of different sides are turned down.
    /// The sum stops growing at `u32::MAX`, which it cannot reach on boards
    /// of a side up to 1290.
    pub fn heuristic_manhattan(t1: &Taquin, t2: &Taquin) -> (r: Result<u32, TaquinError>)
        requires
            t1.wf(),
            t2.wf(),
        ensures
            t1@.size() != t2@.size() <==> r is Err,
            r is Err ==> r == Err::<u32, TaquinError>(TaquinError::SizeMismatch),
            r matches Ok(res) ==> res == capped(t1@.manhattan(t2@)),
            r matches Ok(res) ==> t1@.size() <= 1290 ==> res == t1@.manhattan(t2@),
    {
        proof {
            t1.lemma_wf();
            t2.lemma_wf();
        }
        let n = t1.size();
        if n != t2.size() {
            return Err(TaquinError::SizeMismatch);
        }
        let ghost f = t1@.displacement(t2@);
        proof {
            assert forall|x: int, y: int| 0 <= x < n && 0 <= y < n implies 0 <= #[trigger] f(x, y)
                <= 2 * n by {
                t1@.lemma_same_cells(t2@, x, y);
            }
        }
        let mut res: u32 = 0;
        let mut x: usize = 0;
        while x < n
            invariant
                t1.wf(),
                t2.wf(),
                t1@.wf(),
                t2@.wf(),
                n == t1@.size(),
                n == t2@.size(),
                0 <= x <= n,
                f == t1@.displacement(t2@),
                forall|x: int, y: int|
                    0 <= x < n && 0 <= y < n ==> 0 <= #[trigger] f(x, y) <= 2 * n,
                res == capped(sum_grid(f, x as int, n as int)),
            decreases n - x,
        {
            let mut y: usize = 0;
            while y < n
                invariant
                    t1.wf(),
                    t2.wf(),
                    t1@.wf(),
                    t2@.wf(),
                    n == t1@.size(),
                    n == t2@.size(),
                    0 <= x < n,
                    0 <= y <= n,
                    f == t1@.displacement(t2@),
                    forall|x: int, y: int|
                        0 <= x < n && 0 <= y < n ==> 0 <= #[trigger] f(x, y) <= 2 * n,
                    res == capped(sum_grid(f, x as int, n as int) + sum_column(f, x as int, y as int)),
                decreases n - y,
            {
                proof {
                    lemma_sum_grid_bound(f, x as int, n as int, 2 * n);
                    lemma_sum_column_bound(f, x as int, y as int, 2 * n);
                    t1@.lemma_same_cells(t2@, x as int, y as int);
                }
                let cell = t1.cell(x, y);
                let (i, j) = t2.locate(cell);
                let across = if x >= i {
                    x - i
                } else {
                    i - x
                };
                let down = if y >= j {
                    y - j
                } else {
                    j - y
                };
                assert(across + down == f(x as int, y as int));
                res = res.saturating_add((across + down) as u32);
                y = y + 1;
            }
            x = x + 1;
        }
        proof {
            if n <= 1290 {
                t1@.lemma_manhattan_fits(t2@);
            }
        }
        Ok(res)
    }
}

} // verus!
