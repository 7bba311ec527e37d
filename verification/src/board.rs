//! The board as the search sees it: rows of cells, and which of them the
//! robot may enter.

use crate::square::Square;
use vstd::prelude::*;

verus! {

/// The cells of `grid` as plain data: `board(grid)[y][x]` is the cell in
/// column `x` of row `y`.
pub open spec fn board(grid: &Vec<Vec<Square>>) -> Seq<Seq<Square>> {
    Seq::new(grid@.len(), |y: int| grid@[y]@)
}

/// Whether `b` has `height` rows of `width` cells each.
pub open spec fn is_rectangle(b: Seq<Seq<Square>>, height: nat, width: nat) -> bool {
    &&& b.len() == height
    &&& forall|y: int| 0 <= y < b.len() ==> (#[trigger] b[y]).len() == width
}

/// Whether `c`, a pair of column and row, names a cell of `b`.
pub open spec fn in_bounds(b: Seq<Seq<Square>>, c: (int, int)) -> bool {
    0 <= c.1 < b.len() && 0 <= c.0 < b[c.1].len()
}

/// Whether the robot may step onto `c`: the cell lies on the board and is no
/// `Block`, unless `drill` is set, which opens every cell of the board.
pub open spec fn passable(b: Seq<Seq<Square>>, drill: bool, c: (int, int)) -> bool {
    in_bounds(b, c) && (drill || b[c.1][c.0] != Square::Block)
}

/// Whether no cell of `b` is a `Block`.
pub open spec fn obstacle_free(b: Seq<Seq<Square>>) -> bool {
    forall|c: (int, int)| in_bounds(b, c) ==> #[trigger] b[c.1][c.0] != Square::Block
}

/// Decides whether the robot may step onto the cell in column `x` of row `y`.
pub fn can_enter(grid: &Vec<Vec<Square>>, drill: bool, x: usize, y: usize) -> (ok: bool)
    ensures
        ok == passable(board(grid), drill, (x as int, y as int)),
{
    if y < grid.len() {
        let row = &grid[y];
        x < row.len() && (drill || row[x] != Square::Block)
    } else {
        false
    }
}

} // verus!
