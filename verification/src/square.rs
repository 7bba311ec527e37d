//! The states a cell of the board can be in.

use vstd::prelude::*;

verus! {

/// One cell of the board.
///
/// `Empty` is open space, `Block` is a permanent obstacle and `Filled` is
/// space the robot has already covered. For movement `Empty` and `Filled`
/// behave alike; only `Block` stops the robot.
#[derive(Copy, Clone, Debug, PartialEq, Eq, Structural)]
pub enum Square {
    Empty,
    Block,
    Filled,
}

} // verus!
