//! The movement primitive: one step in one of the four absolute directions.

use vstd::prelude::*;

verus! {

/// The cell reached from `c` by one step in direction `d`.
///
/// Direction 0 adds one to the column, 1 takes one from the row, 2 takes one
/// from the column and 3 adds one to the row. Any other `d` is no direction
/// and leaves `c` where it is.
pub open spec fn step(c: (int, int), d: int) -> (int, int) {
    if d == 0 {
        (c.0 + 1, c.1)
    } else if d == 1 {
        (c.0, c.1 - 1)
    } else if d == 2 {
        (c.0 - 1, c.1)
    } else if d == 3 {
        (c.0, c.1 + 1)
    } else {
        c
    }
}

/// Whether `d` is one of the four directions.
pub open spec fn is_direction(d: int) -> bool {
    0 <= d < 4
}

/// Whether the step from `pos` in direction `dir` stays within `usize`.
pub open spec fn step_fits(pos: (usize, usize), dir: usize) -> bool {
    let to = step((pos.0 as int, pos.1 as int), dir as int);
    0 <= to.0 <= usize::MAX && 0 <= to.1 <= usize::MAX
}

/// Moves `pos` one step in direction `dir`.
///
/// Nothing is checked against a board here: the caller decides beforehand
/// whether the destination is acceptable.
pub fn apply_move(pos: (usize, usize), dir: usize) -> (to: (usize, usize))
    requires
        is_direction(dir as int),
        step_fits(pos, dir),
    ensures
        (to.0 as int, to.1 as int) == step((pos.0 as int, pos.1 as int), dir as int),
{
    let (x, y) = pos;
    if dir == 0 {
        (x + 1, y)
    } else if dir == 1 {
        (x, y - 1)
    } else if dir == 2 {
        (x - 1, y)
    } else {
        (x, y + 1)
    }
}

} // verus!
