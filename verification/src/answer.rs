//! What the search answers, and what holds of every answer.

use crate::action::{directions, Action};
use crate::board::{in_bounds, is_rectangle, obstacle_free, passable};
use crate::movement::{is_direction, step};
use crate::route::{
    connects, destination, is_first_shortest, is_unreachable, lemma_at_least_manhattan,
    lemma_enclosed, lemma_every_step_passable, lemma_open_board_route, lemma_precedes_antisymmetric,
    manhattan,
};
use crate::square::Square;
use vstd::prelude::*;

verus! {

/// An answer of the search as plain data.
pub open spec fn plain(found: Option<Vec<Action>>) -> Option<Seq<Action>> {
    match found {
        Some(actions) => Some(actions@),
        None => None,
    }
}

/// Whether `found` is the right answer to the question for the fewest moves
/// from `start` to `target`: the first of the shortest routes, or `None`
/// where there is no route at all.
pub open spec fn is_answer(
    b: Seq<Seq<Square>>,
    drill: bool,
    start: (int, int),
    target: (int, int),
    found: Option<Seq<Action>>,
) -> bool {
    match found {
        Some(actions) => is_first_shortest(b, drill, start, target, directions(actions)),
        None => is_unreachable(b, drill, start, target),
    }
}

/// Every action of an answer is a `Move` in one of the four directions.
pub proof fn lemma_answer_moves_only(
    b: Seq<Seq<Square>>,
    drill: bool,
    start: (int, int),
    target: (int, int),
    actions: Seq<Action>,
    k: int,
)
    requires
        is_answer(b, drill, start, target, Some(actions)),
        0 <= k < actions.len(),
    ensures
        actions[k] is Move,
        actions[k].valid(),
{
    lemma_every_step_passable(b, drill, start, directions(actions), k);
}

/// Where the target is the start, the answer is the empty sequence.
pub proof fn lemma_answer_at_start(
    b: Seq<Seq<Square>>,
    drill: bool,
    start: (int, int),
    found: Option<Seq<Action>>,
)
    requires
        is_answer(b, drill, start, start, found),
    ensures
        found == Some(Seq::<Action>::empty()),
{
    assert(connects(b, drill, start, start, Seq::<int>::empty()));
    assert(found->0 =~= Seq::<Action>::empty());
}

/// On a board where every cell can be entered, because none is a `Block` or
/// because a drill is in effect, every cell is reached, and in exactly as
/// many moves as the Manhattan distance from the start.
pub proof fn lemma_answer_on_open_board(
    b: Seq<Seq<Square>>,
    drill: bool,
    height: nat,
    width: nat,
    start: (int, int),
    target: (int, int),
    found: Option<Seq<Action>>,
)
    requires
        is_rectangle(b, height, width),
        in_bounds(b, start),
        in_bounds(b, target),
        drill || obstacle_free(b),
        is_answer(b, drill, start, target, found),
    ensures
        found matches Some(actions) && actions.len() == manhattan(start, target),
{
    lemma_open_board_route(b, drill, height, width, start, target);
    match found {
        Some(actions) => {
            lemma_at_least_manhattan(start, directions(actions));
        },
        None => {},
    }
}

/// Two answers to the same question on the same board and for the same
/// robot are the same: both are `None`, or both are the same route, and so
/// of the same length.
pub proof fn lemma_answers_agree(
    b: Seq<Seq<Square>>,
    drill: bool,
    start: (int, int),
    target: (int, int),
    first: Option<Seq<Action>>,
    second: Option<Seq<Action>>,
)
    requires
        is_answer(b, drill, start, target, first),
        is_answer(b, drill, start, target, second),
    ensures
        first == second,
        first matches Some(one) ==> (second matches Some(other) && one.len() == other.len()),
{
    match (first, second) {
        (Some(one), Some(other)) => {
            let left = directions(one);
            let right = directions(other);
            assert(connects(b, drill, start, target, left));
            assert(connects(b, drill, start, target, right));
            lemma_precedes_antisymmetric(left, right);
            assert forall|k: int| 0 <= k < one.len() implies one[k] == other[k] by {
                lemma_answer_moves_only(b, drill, start, target, one, k);
                lemma_answer_moves_only(b, drill, start, target, other, k);
                assert(left[k] == right[k]);
            }
            assert(one =~= other);
        },
        (Some(one), None) => {
            assert(connects(b, drill, start, target, directions(one)));
        },
        (None, Some(other)) => {
            assert(connects(b, drill, start, target, directions(other)));
        },
        (None, None) => {},
    }
}

/// Following an answer from the start with the movement primitive, one
/// action after the other, every step lands on a cell of the board that is
/// no `Block`, unless a drill is in effect, and the last step lands on the
/// target.
pub proof fn lemma_answer_replays(
    b: Seq<Seq<Square>>,
    drill: bool,
    start: (int, int),
    target: (int, int),
    actions: Seq<Action>,
)
    requires
        is_answer(b, drill, start, target, Some(actions)),
    ensures
        destination(start, directions(actions)) == target,
        forall|k: int|
            #![trigger directions(actions).take(k + 1)]
            0 <= k < actions.len() ==> {
                let from = destination(start, directions(actions).take(k));
                let to = destination(start, directions(actions).take(k + 1));
                &&& actions[k] matches Action::Move(d) && d < 4 && to == step(from, d as int)
                &&& in_bounds(b, to)
                &&& !drill ==> b[to.1][to.0] != Square::Block
            },
{
    let dirs = directions(actions);
    assert forall|k: int|
        #![trigger dirs.take(k + 1)]
        0 <= k < actions.len() implies {
        let from = destination(start, dirs.take(k));
        let to = destination(start, dirs.take(k + 1));
        &&& actions[k] matches Action::Move(d) && d < 4 && to == step(from, d as int)
        &&& in_bounds(b, to)
        &&& !drill ==> b[to.1][to.0] != Square::Block
    } by {
        lemma_every_step_passable(b, drill, start, dirs, k);
    }
}

/// A target that is walled in has no answer but `None`: where no drill is
/// in effect, the robot stands on a cell that is no `Block` and is not the
/// target, and none of the four neighbours of the target can be entered,
/// no route leads to the target.
pub proof fn lemma_answer_when_enclosed(
    b: Seq<Seq<Square>>,
    start: (int, int),
    target: (int, int),
    found: Option<Seq<Action>>,
)
    requires
        is_answer(b, false, start, target, found),
        start != target,
        passable(b, false, start),
        forall|d: int| is_direction(d) ==> !passable(b, false, #[trigger] step(target, d)),
    ensures
        found is None,
{
    match found {
        Some(actions) => {
            lemma_enclosed(b, start, target, directions(actions));
        },
        None => {},
    }
}

} // verus!
