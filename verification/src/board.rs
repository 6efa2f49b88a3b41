//! The puzzle board: cells, moves, and the rules for sliding the blank.

use vstd::prelude::*;

verus! {

/// The largest side a board may have.  It is the largest side for which the
/// number of cells, and with it every number on a tile, fits in a `u32`.
pub const MAX_SIZE: usize = 65535;

/// One cell of the grid: the blank, or a numbered tile.
#[derive(Clone, Copy, Debug, PartialEq, Eq, Hash, Structural)]
pub enum Cell {
    Empty,
    Num(u32),
}

impl Cell {
    /// The number on the tile, with 0 standing for the blank.
    pub open spec fn value(self) -> int {
        match self {
            Cell::Num(x) => x as int,
            Cell::Empty => 0,
        }
    }

    /// Whether the cell may stand on a board of side `n`: the blank, or a
    /// number from 1 to `n * n - 1`.
    pub open spec fn fits(self, n: int) -> bool {
        match self {
            Cell::Num(x) => 1 <= x < n * n,
            Cell::Empty => true,
        }
    }

    /// The number on the tile, with 0 standing for the blank.
    pub fn get_value(self) -> (v: u32)
        ensures
            v == self.value(),
    {
        match self {
            Cell::Num(x) => x,
            Cell::Empty => 0,
        }
    }
}

/// A direction in which the blank can travel.
#[derive(Clone, Copy, Debug, PartialEq, Eq, Hash, Structural)]
pub enum Move {
    Up,
    Left,
    Down,
    Right,
}

impl Move {
    /// Change of the blank's column under this move.
    pub open spec fn dx(self) -> int {
        match self {
            Move::Left => -1,
            Move::Right => 1,
            _ => 0,
        }
    }

    /// Change of the blank's row under this move.
    pub open spec fn dy(self) -> int {
        match self {
            Move::Up => -1,
            Move::Down => 1,
            _ => 0,
        }
    }

    /// The move that undoes this one.
    pub open spec fn reverse(self) -> Move {
        match self {
            Move::Up => Move::Down,
            Move::Left => Move::Right,
            Move::Down => Move::Up,
            Move::Right => Move::Left,
        }
    }

    /// The four moves, in the order in which they are offered.
    pub open spec fn all() -> Seq<Move> {
        seq![Move::Up, Move::Left, Move::Down, Move::Right]
    }

    /// The four moves, in the order in which they are offered.
    pub fn get_all_move() -> (moves: Vec<Move>)
        ensures
            moves@ == Move::all(),
    {
        let mut moves: Vec<Move> = Vec::new();
        moves.push(Move::Up);
        moves.push(Move::Left);
        moves.push(Move::Down);
        moves.push(Move::Right);
        assert(moves@ =~= Move::all());
        moves
    }

    /// The move that undoes this one.
    pub fn opposite(self) -> (r: Move)
        ensures
            r == self.reverse(),
    {
        match self {
            Move::Up => Move::Down,
            Move::Left => Move::Right,
            Move::Down => Move::Up,
            Move::Right => Move::Left,
        }
    }
}

/// Why the library turned a request down.
#[derive(Clone, Copy, Debug, PartialEq, Eq, Hash, Structural)]
pub enum TaquinError {
    /// A board was asked for with a side under 2.
    InvalidSize,
    /// Two boards that must have the same side do not.
    SizeMismatch,
    /// The search ran out of boards to look at before it met the goal.
    SearchExhausted,
}

/// The mathematical board: `cells[x][y]` is the cell in column `x` and row
/// `y`, and `(ex, ey)` is where the blank lies.
#[verifier::ext_equal]
pub struct Board {
    pub cells: Seq<Seq<Cell>>,
    pub ex: int,
    pub ey: int,
}

impl Board {
    /// The side of the grid.
    pub open spec fn size(self) -> int {
        self.cells.len() as int
    }

    /// Whether column `x`, row `y` lies on the grid.
    pub open spec fn inside(self, x: int, y: int) -> bool {
        0 <= x < self.size() && 0 <= y < self.size()
    }

    /// The cell in column `x`, row `y`.
    pub open spec fn at(self, x: int, y: int) -> Cell {
        self.cells[x][y]
    }

    /// The grid is square.
    pub open spec fn square(self) -> bool {
        forall|x: int| 0 <= x < self.size() ==> (#[trigger] self.cells[x]).len() == self.size()
    }

    /// A board is well formed when it is a square of side 2 to `MAX_SIZE`
    /// that holds the blank where `(ex, ey)` says and nowhere else, and each
    /// of the numbers from 1 to `size * size - 1` exactly once.
    pub open spec fn wf(self) -> bool {
        &&& 2 <= self.size() <= MAX_SIZE
        &&& self.square()
        &&& self.inside(self.ex, self.ey)
        &&& self.at(self.ex, self.ey) == Cell::Empty
        &&& forall|x: int, y: int|
            self.inside(x, y) ==> (#[trigger] self.at(x, y)).fits(self.size())
        &&& forall|x1: int, y1: int, x2: int, y2: int|
            self.inside(x1, y1) && self.inside(x2, y2) && #[trigger] self.at(x1, y1)
                == #[trigger] self.at(x2, y2) ==> x1 == x2 && y1 == y2
        &&& forall|v: u32|
            1 <= v < self.size() * self.size() ==> #[trigger] self.holds(Cell::Num(v))
    }

    /// Whether some cell of the grid is `c`.
    pub open spec fn holds(self, c: Cell) -> bool {
        exists|x: int, y: int| self.inside(x, y) && #[trigger] self.at(x, y) == c
    }

    /// Whether the blank can travel in direction `m` without leaving the grid.
    pub open spec fn can_move(self, m: Move) -> bool {
        self.inside(self.ex + m.dx(), self.ey + m.dy())
    }

    /// The board after the blank has changed places with the cell in column
    /// `tx`, row `ty`.
    pub open spec fn exchange(self, tx: int, ty: int) -> Board {
        Board {
            cells: Seq::new(
                self.cells.len(),
                |x: int|
                    Seq::new(
                        self.cells[x].len(),
                        |y: int|
                            if x == self.ex && y == self.ey {
                                self.at(tx, ty)
                            } else if x == tx && y == ty {
                                Cell::Empty
                            } else {
                                self.at(x, y)
                            },
                    ),
            ),
            ex: tx,
            ey: ty,
        }
    }

    /// The board after the blank has changed places with its neighbour in
    /// direction `m`.
    pub open spec fn slide(self, m: Move) -> Board {
        self.exchange(self.ex + m.dx(), self.ey + m.dy())
    }

    /// The moves open to the blank, in the order Up, Left, Down, Right.
    pub open spec fn available(self) -> Seq<Move> {
        self.offer(Move::Up) + self.offer(Move::Left) + self.offer(Move::Down) + self.offer(
            Move::Right,
        )
    }

    /// The one-move sequence `[m]` if `m` is open to the blank, else nothing.
    pub open spec fn offer(self, m: Move) -> Seq<Move> {
        if self.can_move(m) {
            seq![m]
        } else {
            Seq::empty()
        }
    }

    /// The board with grid `cells` and the blank recorded at column `ex`,
    /// row `ey`.
    pub open spec fn over(cells: Seq<Seq<Cell>>, ex: int, ey: int) -> Board {
        Board { cells, ex, ey }
    }

    /// Whether `cells` is the grid of a well-formed board.
    pub open spec fn valid_grid(cells: Seq<Seq<Cell>>) -> bool {
        exists|ex: int, ey: int| (#[trigger] Board::over(cells, ex, ey)).wf()
    }

    /// The cell that the solved board of side `n` holds in column `x`, row
    /// `y`: the numbers run along the rows from the top, and the blank comes
    /// last.
    pub open spec fn solved_cell(n: int, x: int, y: int) -> Cell {
        if x == n - 1 && y == n - 1 {
            Cell::Empty
        } else {
            Cell::Num((y * n + x + 1) as u32)
        }
    }

    /// The solved board of side `n`.
    pub open spec fn solved(n: int) -> Board {
        Board {
            cells: Seq::new(
                n as nat,
                |x: int| Seq::new(n as nat, |y: int| Board::solved_cell(n, x, y)),
            ),
            ex: n - 1,
            ey: n - 1,
        }
    }

    /// The solved board of every admissible side is well formed.
    pub proof fn lemma_solved_wf(n: int)
        requires
            2 <= n <= MAX_SIZE,
        ensures
            Board::solved(n).wf(),
            Board::solved(n).size() == n,
    {
        let b = Board::solved(n);
        assert(n * n <= 65535 * 65535) by (nonlinear_arith)
            requires
                2 <= n <= 65535,
        ;
        assert forall|x: int, y: int| b.inside(x, y) implies (#[trigger] b.at(x, y)).fits(
            b.size(),
        ) by {
            lemma_solved_number(n, x, y);
        }
        assert forall|x1: int, y1: int, x2: int, y2: int|
            b.inside(x1, y1) && b.inside(x2, y2) && #[trigger] b.at(x1, y1) == #[trigger] b.at(
                x2,
                y2,
            ) implies x1 == x2 && y1 == y2 by {
            lemma_solved_number(n, x1, y1);
            lemma_solved_number(n, x2, y2);
            if !(x1 == n - 1 && y1 == n - 1) && !(x2 == n - 1 && y2 == n - 1) {
                assert(y1 * n + x1 == y2 * n + x2);
                assert(x1 == x2 && y1 == y2) by (nonlinear_arith)
                    requires
                        y1 * n + x1 == y2 * n + x2,
                        0 <= x1 < n,
                        0 <= x2 < n,
                        0 <= y1,
                        0 <= y2,
                ;
            }
        }
        assert forall|v: u32| 1 <= v < b.size() * b.size() implies #[trigger] b.holds(
            Cell::Num(v),
        ) by {
            let k = v - 1;
            let x = k % n;
            let y = k / n;
            assert(y * n + x == k && 0 <= x < n && 0 <= y < n) by (nonlinear_arith)
                requires
                    0 <= k < n * n,
                    n >= 2,
                    x == k % n,
                    y == k / n,
            ;
            lemma_solved_number(n, x, y);
            assert(b.inside(x, y));
            assert(b.at(x, y) == Board::solved_cell(n, x, y));
            assert(b.at(x, y) == Cell::Num(v));
        }
    }

    /// Two well-formed boards with the same grid are the same board: the
    /// grid says where the blank lies.
    pub proof fn lemma_grid_decides(self, other: Board)
        requires
            self.wf(),
            other.wf(),
            self.cells == other.cells,
        ensures
            self == other,
    {
        assert(self.at(self.ex, self.ey) == self.at(other.ex, other.ey));
    }

    /// A move is among the available ones exactly when it is legal.
    pub proof fn lemma_available(self)
        ensures
            forall|m: Move| self.can_move(m) <==> self.available().contains(m),
            forall|i: int|
                0 <= i < self.available().len() ==> self.can_move(#[trigger] self.available()[i]),
            self.available().len() <= 4,
    {
        let a = self.available();
        assert forall|m: Move| self.can_move(m) implies a.contains(m) by {
            let up = self.offer(Move::Up);
            let left = self.offer(Move::Left);
            let down = self.offer(Move::Down);
            let right = self.offer(Move::Right);
            match m {
                Move::Up => {
                    assert(a[0] == m);
                },
                Move::Left => {
                    assert(a[up.len() as int] == m);
                },
                Move::Down => {
                    assert(a[(up.len() + left.len()) as int] == m);
                },
                Move::Right => {
                    assert(a[(up.len() + left.len() + down.len()) as int] == m);
                },
            }
        }
        assert forall|i: int| 0 <= i < a.len() implies self.can_move(#[trigger] a[i]) by {
            let up = self.offer(Move::Up);
            let left = self.offer(Move::Left);
            let down = self.offer(Move::Down);
            if i < up.len() {
                assert(a[i] == Move::Up);
            } else if i < up.len() + left.len() {
                assert(a[i] == Move::Left);
            } else if i < up.len() + left.len() + down.len() {
                assert(a[i] == Move::Down);
            } else {
                assert(a[i] == Move::Right);
            }
        }
    }

    /// A legal move leaves a well-formed board well formed.
    pub proof fn lemma_slide_wf(self, m: Move)
        requires
            self.wf(),
            self.can_move(m),
        ensures
            self.slide(m).wf(),
            self.slide(m).size() == self.size(),
    {
        let b = self.slide(m);
        let tx = self.ex + m.dx();
        let ty = self.ey + m.dy();
        assert(b.square());
        assert forall|x: int, y: int| b.inside(x, y) implies b.at(x, y) == (if x == self.ex && y
            == self.ey {
            self.at(tx, ty)
        } else if x == tx && y == ty {
            Cell::Empty
        } else {
            self.at(x, y)
        }) by {}
        assert forall|v: u32| 1 <= v < b.size() * b.size() implies #[trigger] b.holds(
            Cell::Num(v),
        ) by {
            assert(self.holds(Cell::Num(v)));
            let (x, y) = choose|x: int, y: int| self.inside(x, y) && self.at(x, y) == Cell::Num(v);
            if x == tx && y == ty {
                assert(b.inside(self.ex, self.ey) && b.at(self.ex, self.ey) == Cell::Num(v));
            } else {
                assert(b.inside(x, y) && b.at(x, y) == Cell::Num(v));
            }
        }
        assert forall|x1: int, y1: int, x2: int, y2: int|
            b.inside(x1, y1) && b.inside(x2, y2) && #[trigger] b.at(x1, y1) == #[trigger] b.at(
                x2,
                y2,
            ) implies x1 == x2 && y1 == y2 by {
            let sx1 = if x1 == self.ex && y1 == self.ey { tx } else if x1 == tx && y1 == ty { self.ex } else { x1 };
            let sy1 = if x1 == self.ex && y1 == self.ey { ty } else if x1 == tx && y1 == ty { self.ey } else { y1 };
            let sx2 = if x2 == self.ex && y2 == self.ey { tx } else if x2 == tx && y2 == ty { self.ex } else { x2 };
            let sy2 = if x2 == self.ex && y2 == self.ey { ty } else if x2 == tx && y2 == ty { self.ey } else { y2 };
            assert(b.at(x1, y1) == self.at(sx1, sy1));
            assert(b.at(x2, y2) == self.at(sx2, sy2));
        }
    }
}

/// The number that the solved board of side `n` holds at an inner place is
/// at least 1 and under `n * n`; it reaches `n * n` only in the last place.
proof fn lemma_solved_number(n: int, x: int, y: int)
    requires
        2 <= n <= MAX_SIZE,
        0 <= x < n,
        0 <= y < n,
    ensures
        1 <= y * n + x + 1 <= n * n,
        n * n <= 65535 * 65535,
        y * n + x + 1 == n * n <==> x == n - 1 && y == n - 1,
{
    assert(1 <= y * n + x + 1 <= n * n && n * n <= 65535 * 65535 && (y * n + x + 1 == n * n <==> x
        == n - 1 && y == n - 1)) by (nonlinear_arith)
        requires
            2 <= n <= 65535,
            0 <= x < n,
            0 <= y < n,
    ;
}

/// The grid that `cells` holds, column by column.
pub open spec fn grid_of(cells: Vec<Vec<Cell>>) -> Seq<Seq<Cell>> {
    Seq::new(cells@.len(), |x: int| cells@[x]@)
}

/// Whether column `i`, row `j` of a grid of side `n` comes before column
/// `x`, row `y` when the grid is read column by column.
spec fn scanned(n: int, x: int, y: int, i: int, j: int) -> bool {
    0 <= i < n && 0 <= j < n && (i < x || (i == x && j < y))
}

/// What holds of the tally of a grid read up to column `x`, row `y`: each
/// cell read fits the grid and is the one place recorded for its value, and
/// each value marked as seen has its place among the cells read.
spec fn tallied(
    g: Seq<Seq<Cell>>,
    n: int,
    x: int,
    y: int,
    seen: Seq<bool>,
    place: Seq<(int, int)>,
) -> bool {
    &&& seen.len() == n * n
    &&& place.len() == n * n
    &&& forall|i: int, j: int| #[trigger]
        scanned(n, x, y, i, j) ==> g[i][j].fits(n) && seen[g[i][j].value()] && place[g[i][j].value()]
            == (i, j)
    &&& forall|v: int|
        0 <= v < n * n && #[trigger] seen[v] ==> scanned(n, x, y, place[v].0, place[v].1)
            && g[place[v].0][place[v].1].value() == v
}

/// A puzzle board of side `size`, with the place of its blank cached.
#[derive(Debug, Hash)]
pub struct Taquin {
    board: Vec<Vec<Cell>>,
    empty_coord: (usize, usize),
    size: usize,
}

impl View for Taquin {
    type V = Board;

    closed spec fn view(&self) -> Board {
        Board {
            cells: Seq::new(self.board@.len(), |x: int| self.board@[x]@),
            ex: self.empty_coord.0 as int,
            ey: self.empty_coord.1 as int,
        }
    }
}

impl Taquin {
    /// The board is well formed and the cached side is that of the grid.
    pub closed spec fn wf(&self) -> bool {
        &&& self@.wf()
        &&& self.size == self@.size()
    }

    /// A well-formed puzzle has a well-formed board.
    pub proof fn lemma_wf(&self)
        requires
            self.wf(),
        ensures
            self@.wf(),
            self@.size() <= MAX_SIZE,
    {
    }

    /// The solved board of side `size`: the numbers from 1 run along the
    /// rows from the top, and the blank lies in the last row and column.
    /// A side under 2 is turned down; one above `MAX_SIZE` is not to be
    /// asked for.
    pub fn new(size: usize) -> (r: Result<Taquin, TaquinError>)
        requires
            size <= MAX_SIZE,
        ensures
            size < 2 <==> r is Err,
            r is Err ==> r == Err::<Taquin, TaquinError>(TaquinError::InvalidSize),
            r matches Ok(t) ==> t.wf() && t@ == Board::solved(size as int),
            r matches Ok(t) ==> t@.wf() && t@.size() == size && t@.ex == size - 1 && t@.ey == size
                - 1,
    {
        if size < 2 {
            return Err(TaquinError::InvalidSize);
        }
        let mut board: Vec<Vec<Cell>> = Vec::new();
        let mut x: usize = 0;
        while x < size
            invariant
                2 <= size <= MAX_SIZE,
                0 <= x <= size,
                board@.len() == x,
                forall|i: int|
                    0 <= i < x ==> (#[trigger] board@[i])@ =~= Board::solved(size as int).cells[i],
            decreases size - x,
        {
            let mut column: Vec<Cell> = Vec::new();
            let mut y: usize = 0;
            while y < size
                invariant
                    2 <= size <= MAX_SIZE,
                    0 <= x < size,
                    0 <= y <= size,
                    column@.len() == y,
                    forall|j: int|
                        0 <= j < y ==> #[trigger] column@[j] == Board::solved_cell(
                            size as int,
                            x as int,
                            j,
                        ),
                decreases size - y,
            {
                proof {
                    lemma_solved_number(size as int, x as int, y as int);
                }
                let c = if x == size - 1 && y == size - 1 {
                    Cell::Empty
                } else {
                    Cell::Num((y * size + x + 1) as u32)
                };
                column.push(c);
                y = y + 1;
            }
            board.push(column);
            x = x + 1;
        }
        let t = Taquin { board, empty_coord: (size - 1, size - 1), size };
        proof {
            Board::lemma_solved_wf(size as int);
            assert(t@.cells =~= Board::solved(size as int).cells);
        }
        Ok(t)
    }

    /// The board with the grid `cells`, given column by column, if that is
    /// the grid of a well-formed board: a square of side 2 to `MAX_SIZE`
    /// with one blank and each number from 1 to `size * size - 1` once.
    pub fn from_cells(cells: Vec<Vec<Cell>>) -> (r: Option<Taquin>)
        ensures
            r is Some <==> Board::valid_grid(grid_of(cells)),
            r matches Some(t) ==> t.wf() && t@.cells == grid_of(cells),
    {
        let n = cells.len();
        let ghost g = grid_of(cells);
        if n < 2 || n > MAX_SIZE {
            assert forall|ex: int, ey: int| !(#[trigger] Board::over(g, ex, ey)).wf() by {}
            return None;
        }
        let mut x: usize = 0;
        while x < n
            invariant
                n == cells.len(),
                g == grid_of(cells),
                0 <= x <= n,
                forall|i: int| 0 <= i < x ==> (#[trigger] g[i]).len() == n,
            decreases n - x,
        {
            if cells[x].len() != n {
                assert forall|ex: int, ey: int| !(#[trigger] Board::over(g, ex, ey)).wf() by {
                    assert(g[x as int].len() != n);
                }
                return None;
            }
            x = x + 1;
        }
        assert(4 <= n * n <= 65535 * 65535) by (nonlinear_arith)
            requires
                2 <= n <= 65535,
        ;
        let total = n * n;
        let mut seen: Vec<bool> = Vec::new();
        while seen.len() < total
            invariant
                seen.len() <= total,
                forall|v: int| 0 <= v < seen.len() ==> !#[trigger] seen[v],
            decreases total - seen.len(),
        {
            seen.push(false);
        }
        let ghost place: Seq<(int, int)> = Seq::new(total as nat, |v: int| (0int, 0int));
        let mut empty: (usize, usize) = (0, 0);
        x = 0;
        while x < n
            invariant
                2 <= n <= MAX_SIZE,
                n == cells.len(),
                total == n * n,
                4 <= total <= 65535 * 65535,
                g == grid_of(cells),
                forall|i: int| 0 <= i < n ==> (#[trigger] g[i]).len() == n,
                0 <= x <= n,
                tallied(g, n as int, x as int, 0, seen@, place),
                seen@[0] ==> place[0] == (empty.0 as int, empty.1 as int),
            decreases n - x,
        {
            let mut y: usize = 0;
            while y < n
                invariant
                    2 <= n <= MAX_SIZE,
                    n == cells.len(),
                    total == n * n,
                4 <= total <= 65535 * 65535,
                    g == grid_of(cells),
                    forall|i: int| 0 <= i < n ==> (#[trigger] g[i]).len() == n,
                    0 <= x < n,
                    0 <= y <= n,
                    tallied(g, n as int, x as int, y as int, seen@, place),
                    seen@[0] ==> place[0] == (empty.0 as int, empty.1 as int),
                decreases n - y,
            {
                assert(g[x as int].len() == n);
                let c = cells[x][y];
                assert(c == g[x as int][y as int]);
                let v: usize = match c {
                    Cell::Empty => 0,
                    Cell::Num(k) => {
                        if k == 0 || k as usize >= total {
                            assert forall|ex: int, ey: int| !(#[trigger] Board::over(
                                g,
                                ex,
                                ey,
                            )).wf() by {
                                let b = Board::over(g, ex, ey);
                                assert(!b.at(x as int, y as int).fits(n as int));
                            }
                            return None;
                        }
                        k as usize
                    },
                };
                if seen[v] {
                    assert forall|ex: int, ey: int| !(#[trigger] Board::over(g, ex, ey)).wf() by {
                        let b = Board::over(g, ex, ey);
                        let p = place[v as int];
                        assert(scanned(n as int, x as int, y as int, p.0, p.1));
                        assert(b.at(p.0, p.1).value() == b.at(x as int, y as int).value());
                        if b.wf() {
                            assert(b.at(p.0, p.1).fits(n as int));
                            assert(b.at(p.0, p.1) == b.at(x as int, y as int));
                        }
                    }
                    return None;
                }
                let ghost before = seen@;
                let ghost places = place;
                seen[v] = true;
                if v == 0 {
                    empty = (x, y);
                }
                proof {
                    place = place.update(v as int, (x as int, y as int));
                    assert forall|i: int, j: int| #[trigger]
                        scanned(n as int, x as int, y + 1, i, j) implies g[i][j].fits(n as int)
                        && seen@[g[i][j].value()] && place[g[i][j].value()] == (i, j) by {
                        if !(i == x && j == y) {
                            assert(scanned(n as int, x as int, y as int, i, j));
                            assert(before[g[i][j].value()]);
                        }
                    }
                    assert forall|w: int| 0 <= w < n * n && #[trigger] seen@[w] implies scanned(
                        n as int,
                        x as int,
                        y + 1,
                        place[w].0,
                        place[w].1,
                    ) && g[place[w].0][place[w].1].value() == w by {
                        if w != v {
                            assert(before[w]);
                            assert(scanned(n as int, x as int, y as int, places[w].0, places[w].1));
                        }
                    }
                }
                y = y + 1;
            }
            proof {
                assert forall|i: int, j: int| #[trigger]
                    scanned(n as int, x + 1, 0, i, j) implies scanned(
                    n as int,
                    x as int,
                    n as int,
                    i,
                    j,
                ) by {}
                assert forall|w: int| 0 <= w < n * n && #[trigger] seen@[w] implies scanned(
                    n as int,
                    x + 1,
                    0,
                    place[w].0,
                    place[w].1,
                ) by {
                    assert(scanned(n as int, x as int, n as int, place[w].0, place[w].1));
                }
            }
            x = x + 1;
        }
        let mut v: usize = 0;
        while v < total
            invariant
                2 <= n <= MAX_SIZE,
                total == n * n,
                4 <= total <= 65535 * 65535,
                g == grid_of(cells),
                forall|i: int| 0 <= i < n ==> (#[trigger] g[i]).len() == n,
                tallied(g, n as int, n as int, 0, seen@, place),
                n == cells.len(),
                0 <= v <= total,
                forall|w: int| 0 <= w < v ==> #[trigger] seen@[w],
            decreases total - v,
        {
            if !seen[v] {
                assert forall|ex: int, ey: int| !(#[trigger] Board::over(g, ex, ey)).wf() by {
                    let b = Board::over(g, ex, ey);
                    if b.wf() {
                        let (i, j) = if v == 0 {
                            (ex, ey)
                        } else {
                            assert(b.holds(Cell::Num(v as u32)));
                            choose|i: int, j: int|
                                b.inside(i, j) && #[trigger] b.at(i, j) == Cell::Num(v as u32)
                        };
                        assert(b.at(i, j).value() == v);
                        assert(scanned(n as int, n as int, 0, i, j));
                    }
                }
                return None;
            }
            v = v + 1;
        }
        let t = Taquin { board: cells, empty_coord: empty, size: n };
        proof {
            assert(t@.cells =~= g);
            let b = t@;
            assert(seen@[0]);
            assert(scanned(n as int, n as int, 0, place[0].0, place[0].1));
            assert(b.at(b.ex, b.ey).fits(n as int));
            assert forall|i: int, j: int| b.inside(i, j) implies (#[trigger] b.at(i, j)).fits(
                b.size(),
            ) by {
                assert(scanned(n as int, n as int, 0, i, j));
            }
            assert forall|x1: int, y1: int, x2: int, y2: int|
                b.inside(x1, y1) && b.inside(x2, y2) && #[trigger] b.at(x1, y1) == #[trigger] b.at(
                    x2,
                    y2,
                ) implies x1 == x2 && y1 == y2 by {
                assert(scanned(n as int, n as int, 0, x1, y1));
                assert(scanned(n as int, n as int, 0, x2, y2));
            }
            assert forall|w: u32| 1 <= w < b.size() * b.size() implies #[trigger] b.holds(
                Cell::Num(w),
            ) by {
                assert(seen@[w as int]);
                let p = place[w as int];
                assert(scanned(n as int, n as int, 0, p.0, p.1));
                assert(b.at(p.0, p.1).fits(n as int));
                assert(b.inside(p.0, p.1) && b.at(p.0, p.1) == Cell::Num(w));
            }
            assert(b.wf());
            assert(Board::over(g, b.ex, b.ey) == b);
        }
        Some(t)
    }

    /// The side of the grid.
    pub fn size(&self) -> (n: usize)
        requires
            self.wf(),
        ensures
            n == self@.size(),
    {
        self.size
    }

    /// The cell in column `x`, row `y`.
    pub fn cell(&self, x: usize, y: usize) -> (c: Cell)
        requires
            self.wf(),
            self@.inside(x as int, y as int),
        ensures
            c == self@.at(x as int, y as int),
    {
        self.board[x][y]
    }

    /// Where the blank lies, as column and row.
    pub fn empty_coord(&self) -> (p: (usize, usize))
        requires
            self.wf(),
        ensures
            p.0 == self@.ex,
            p.1 == self@.ey,
    {
        self.empty_coord
    }

    /// Whether the blank can travel in direction `m`.
    pub fn can_move(&self, m: Move) -> (ok: bool)
        requires
            self.wf(),
        ensures
            ok == self@.can_move(m),
    {
        match m {
            Move::Up => self.empty_coord.1 != 0,
            Move::Left => self.empty_coord.0 != 0,
            Move::Down => self.empty_coord.1 != self.size - 1,
            Move::Right => self.empty_coord.0 != self.size - 1,
        }
    }

    /// The moves open to the blank: those that keep it on the grid, in the
    /// order Up, Left, Down, Right.
    pub fn available_move(&self) -> (moves: Vec<Move>)
        requires
            self.wf(),
        ensures
            moves@ == self@.available(),
            forall|i: int| 0 <= i < moves.len() ==> self@.can_move(#[trigger] moves[i]),
            forall|m: Move| self@.can_move(m) <==> moves@.contains(m),
    {
        let all = Move::get_all_move();
        let mut moves: Vec<Move> = Vec::new();
        if self.can_move(all[0]) {
            moves.push(all[0]);
        }
        if self.can_move(all[1]) {
            moves.push(all[1]);
        }
        if self.can_move(all[2]) {
            moves.push(all[2]);
        }
        if self.can_move(all[3]) {
            moves.push(all[3]);
        }
        proof {
            assert(moves@ =~= self@.available());
            self@.lemma_available();
        }
        moves
    }

    /// Puts the blank at `coord` and the tile found there where the blank was.
    fn swap(&mut self, coord: (usize, usize))
        requires
            old(self).wf(),
            old(self)@.inside(coord.0 as int, coord.1 as int),
            coord != old(self).empty_coord,
        ensures
            final(self).size == old(self).size,
            final(self)@ == old(self)@.exchange(coord.0 as int, coord.1 as int),
    {
        assert(self@.cells[coord.0 as int].len() == self@.size());
        assert(self@.cells[self.empty_coord.0 as int].len() == self@.size());
        let tile = self.board[coord.0][coord.1];
        let (ex, ey) = self.empty_coord;
        self.board[ex][ey] = tile;
        assert(self.board@[coord.0 as int]@.len() == old(self)@.size());
        self.board[coord.0][coord.1] = Cell::Empty;
        self.empty_coord = coord;
        proof {
            let want = old(self)@.exchange(coord.0 as int, coord.1 as int);
            assert(self@.cells.len() == want.cells.len());
            assert forall|x: int| 0 <= x < want.cells.len() implies self@.cells[x]
                =~= want.cells[x] by {}
            assert(self@.cells =~= want.cells);
        }
    }

    /// Slides the blank in direction `m` if that keeps it on the grid, and
    /// says whether it did.  An illegal move leaves the board as it was.
    pub fn make_move(&mut self, m: Move) -> (ok: bool)
        requires
            old(self).wf(),
        ensures
            final(self).wf(),
            ok == old(self)@.can_move(m),
            ok ==> final(self)@ == old(self)@.slide(m),
            !ok ==> final(self)@ == old(self)@,
    {
        if !self.can_move(m) {
            return false;
        }
        proof {
            self@.lemma_slide_wf(m);
        }
        match m {
            Move::Up => self.swap((self.empty_coord.0, self.empty_coord.1 - 1)),
            Move::Left => self.swap((self.empty_coord.0 - 1, self.empty_coord.1)),
            Move::Down => self.swap((self.empty_coord.0, self.empty_coord.1 + 1)),
            Move::Right => self.swap((self.empty_coord.0 + 1, self.empty_coord.1)),
        }
        true
    }

    /// Slides the blank against direction `m`, under the rules of
    /// `make_move`.
    pub fn reverse_move(&mut self, m: Move) -> (ok: bool)
        requires
            old(self).wf(),
        ensures
            final(self).wf(),
            ok == old(self)@.can_move(m.reverse()),
            ok ==> final(self)@ == old(self)@.slide(m.reverse()),
            !ok ==> final(self)@ == old(self)@,
    {
        self.make_move(m.opposite())
    }
}

impl Clone for Taquin {
    /// An independent copy of the puzzle.
    fn clone(&self) -> (r: Self)
        ensures
            r@ == self@,
            r.wf() == self.wf(),
    {
        let mut board: Vec<Vec<Cell>> = Vec::new();
        let mut x: usize = 0;
        while x < self.board.len()
            invariant
                0 <= x <= self.board.len(),
                board@.len() == x,
                forall|i: int| 0 <= i < x ==> (#[trigger] board@[i])@ == self.board@[i]@,
            decreases self.board.len() - x,
        {
            let mut column: Vec<Cell> = Vec::new();
            let mut y: usize = 0;
            while y < self.board[x].len()
                invariant
                    0 <= x < self.board.len(),
                    0 <= y <= self.board@[x as int].len(),
                    column@.len() == y,
                    forall|j: int| 0 <= j < y ==> #[trigger] column@[j] == self.board@[x as int]@[j],
                decreases self.board@[x as int].len() - y,
            {
                column.push(self.board[x][y]);
                y = y + 1;
            }
            assert(column@ =~= self.board@[x as int]@);
            board.push(column);
            x = x + 1;
        }
        let r = Taquin { board, empty_coord: self.empty_coord, size: self.size };
        assert(r@.cells =~= self@.cells);
        r
    }
}

impl PartialEq for Taquin {
    /// Two puzzles are equal when their boards are.
    fn eq(&self, other: &Self) -> (r: bool) {
        if self.empty_coord.0 != other.empty_coord.0 || self.empty_coord.1 != other.empty_coord.1
            || self.board.len() != other.board.len() {
            assert(self@.ex != other@.ex || self@.ey != other@.ey || self@.cells.len()
                != other@.cells.len());
            return false;
        }
        let mut x: usize = 0;
        while x < self.board.len()
            invariant
                0 <= x <= self.board.len(),
                self.board.len() == other.board.len(),
                forall|i: int| 0 <= i < x ==> (#[trigger] self.board@[i])@ == other.board@[i]@,
            decreases self.board.len() - x,
        {
            if self.board[x].len() != other.board[x].len() {
                assert(self@.cells[x as int] != other@.cells[x as int]);
                return false;
            }
            let mut y: usize = 0;
            while y < self.board[x].len()
                invariant
                    0 <= x < self.board.len(),
                    self.board.len() == other.board.len(),
                    self.board@[x as int].len() == other.board@[x as int].len(),
                    0 <= y <= self.board@[x as int].len(),
                    forall|j: int|
                        0 <= j < y ==> #[trigger] self.board@[x as int]@[j] == other.board@[x as int]@[j],
                decreases self.board@[x as int].len() - y,
            {
                if self.board[x][y] != other.board[x][y] {
                    assert(self@.cells[x as int][y as int] != other@.cells[x as int][y as int]);
                    return false;
                }
                y = y + 1;
            }
            assert(self.board@[x as int]@ =~= other.board@[x as int]@);
            x = x + 1;
        }
        assert(self@.cells =~= other@.cells);
        true
    }
}

impl vstd::std_specs::cmp::PartialEqSpecImpl for Taquin {
    open spec fn obeys_eq_spec() -> bool {
        true
    }

    open spec fn eq_spec(&self, other: &Self) -> bool {
        self@ == other@
    }
}

impl Eq for Taquin {

}

} // verus!
