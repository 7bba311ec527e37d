//! The robot's primitive actions.

use vstd::prelude::*;

verus! {

/// One primitive instruction for the robot.
///
/// `Move` carries one of the four directions, 0 to 3. `Extension` carries
/// the offset, relative to the robot, at which a manipulator is attached.
#[derive(Copy, Clone, Debug, PartialEq, Eq, Structural)]
pub enum Action {
    Move(usize),
    Nothing,
    TurnR,
    TurnL,
    Extension(i32, i32),
    Fast,
    Drill,
}

impl Action {
    /// Whether the action can be carried out: a `Move` must name one of the
    /// four directions; every other action is always valid.
    pub open spec fn valid(self) -> bool {
        self matches Action::Move(d) ==> d < 4
    }

    /// The direction of a `Move`, and -1, which is no direction, for every
    /// other action.
    pub open spec fn direction(self) -> int {
        match self {
            Action::Move(d) => d as int,
            _ => -1,
        }
    }
}

/// The directions of a sequence of actions, one entry per action.
pub open spec fn directions(actions: Seq<Action>) -> Seq<int> {
    Seq::new(actions.len(), |i: int| actions[i].direction())
}

} // verus!
