//! A number for each board by which boards can be filed and found again.

use vstd::prelude::*;
use crate::board::{Board, Cell, Taquin};

verus! {

/// The number `acc` becomes when cell `c` is taken into it.
pub open spec fn mix(acc: u64, c: Cell) -> u64 {
    ((acc * 31 + c.value()) % 0x1_0000_0000_0000_0000) as u64
}

/// The number `acc` becomes when the cells of `column` are taken into it in
/// order.
pub open spec fn column_key(column: Seq<Cell>, acc: u64) -> u64
    decreases column.len(),
{
    if column.len() == 0 {
        acc
    } else {
        mix(column_key(column.drop_last(), acc), column.last())
    }
}

/// The number `acc` becomes when the columns of `cells` are taken into it in
/// order.
pub open spec fn cells_key(cells: Seq<Seq<Cell>>, acc: u64) -> u64
    decreases cells.len(),
{
    if cells.len() == 0 {
        acc
    } else {
        column_key(cells.last(), cells_key(cells.drop_last(), acc))
    }
}

impl Board {
    /// A number made of the cells of the grid alone, so that boards with
    /// equal grids have equal numbers.  Boards with unequal grids may have
    /// equal numbers too.
    pub open spec fn key(self) -> u64 {
        cells_key(self.cells, 0)
    }
}

impl Taquin {
/// The board's key: a number made of the cells of the grid alone, for
/// filing boards in tables.
pub fn key(&self) -> (k: u64)
    requires
        self.wf(),
    ensures
        k == self@.key(),
{
    let t = self;
    proof {
        t.lemma_wf();
    }
    let n = t.size();
    let mut acc: u64 = 0;
    let mut x: usize = 0;
    while x < n
        invariant
            t.wf(),
            t@.wf(),
            n == t@.size(),
            0 <= x <= n,
            acc == cells_key(t@.cells.take(x as int), 0),
        decreases n - x,
    {
        let ghost before = acc;
        let ghost column = t@.cells[x as int];
        assert(column.len() == n);
        let mut y: usize = 0;
        while y < n
            invariant
                t.wf(),
                t@.wf(),
                n == t@.size(),
                0 <= x < n,
                0 <= y <= n,
                column == t@.cells[x as int],
                column.len() == n,
                acc == column_key(column.take(y as int), before),
            decreases n - y,
        {
            let v = t.cell(x, y).get_value();
            let wide: u128 = acc as u128 * 31 + v as u128;
            acc = (wide % 0x1_0000_0000_0000_0000u128) as u64;
            proof {
                assert(column.take(y + 1).drop_last() =~= column.take(y as int));
                assert(column.take(y + 1).last() == t@.at(x as int, y as int));
            }
            y = y + 1;
        }
        proof {
            assert(column.take(n as int) =~= column);
            assert(t@.cells.take(x + 1).drop_last() =~= t@.cells.take(x as int));
            assert(t@.cells.take(x + 1).last() == column);
        }
        x = x + 1;
    }
    proof {
        assert(t@.cells.take(n as int) =~= t@.cells);
    }
    acc
}
}

} // verus!
