//! Routes: sequences of steps over the board, and what it means for one to be
//! shortest.
//!
//! A route is a sequence of directions. It is followed from a start cell with
//! the movement primitive, and it is valid when every step lands on a cell
//! that the robot may enter. The start cell itself is never examined.

use crate::board::{in_bounds, is_rectangle, obstacle_free, passable};
use crate::movement::{is_direction, step};
use crate::square::Square;
use vstd::prelude::*;

verus! {

/// The cell reached by following `dirs` from `start`, one step after the
/// other.
pub open spec fn destination(start: (int, int), dirs: Seq<int>) -> (int, int)
    decreases dirs.len(),
{
    if dirs.len() == 0 {
        start
    } else {
        step(destination(start, dirs.drop_last()), dirs.last())
    }
}

/// Whether `dirs` can be followed from `start`: each entry is a direction
/// and each step lands on a passable cell.
pub open spec fn is_route(
    b: Seq<Seq<Square>>,
    drill: bool,
    start: (int, int),
    dirs: Seq<int>,
) -> bool
    decreases dirs.len(),
{
    dirs.len() == 0 || {
        &&& is_route(b, drill, start, dirs.drop_last())
        &&& is_direction(dirs.last())
        &&& passable(b, drill, destination(start, dirs))
    }
}

/// Whether `dirs` is a route from `start` that ends on `target`.
pub open spec fn connects(
    b: Seq<Seq<Square>>,
    drill: bool,
    start: (int, int),
    target: (int, int),
    dirs: Seq<int>,
) -> bool {
    is_route(b, drill, start, dirs) && destination(start, dirs) == target
}

/// Whether `dirs` leads from `start` to `target` and no route between the
/// two is shorter.
pub open spec fn is_shortest(
    b: Seq<Seq<Square>>,
    drill: bool,
    start: (int, int),
    target: (int, int),
    dirs: Seq<int>,
) -> bool {
    &&& connects(b, drill, start, target, dirs)
    &&& forall|other: Seq<int>| #[trigger]
        connects(b, drill, start, target, other) ==> dirs.len() <= other.len()
}

/// Whether `a` and `c` hold the same entries in the places before `i`.
pub open spec fn agree_before(a: Seq<int>, c: Seq<int>, i: int) -> bool {
    forall|j: int| 0 <= j < i ==> a[j] == c[j]
}

/// Whether `a` stands no later than `c` in the order of a dictionary: the
/// two are equally long, and they are the same or `a` holds the smaller
/// entry in the first place where they differ.
pub open spec fn precedes(a: Seq<int>, c: Seq<int>) -> bool {
    a.len() == c.len() && (a == c || exists|i: int|
        0 <= i < a.len() && #[trigger] agree_before(a, c, i) && a[i] < c[i])
}

/// Whether `dirs` is the first of the shortest routes from `start` to
/// `target`: it is a shortest route, and it precedes every other.
pub open spec fn is_first_shortest(
    b: Seq<Seq<Square>>,
    drill: bool,
    start: (int, int),
    target: (int, int),
    dirs: Seq<int>,
) -> bool {
    &&& is_shortest(b, drill, start, target, dirs)
    &&& forall|other: Seq<int>|
        other.len() == dirs.len() && #[trigger] connects(b, drill, start, target, other)
            ==> precedes(dirs, other)
}

/// Whether no route leads from `start` to `target`.
pub open spec fn is_unreachable(
    b: Seq<Seq<Square>>,
    drill: bool,
    start: (int, int),
    target: (int, int),
) -> bool {
    forall|dirs: Seq<int>| !#[trigger] connects(b, drill, start, target, dirs)
}

/// The number of steps between `a` and `c` when nothing is in the way.
pub open spec fn manhattan(a: (int, int), c: (int, int)) -> int {
    (if a.0 <= c.0 { c.0 - a.0 } else { a.0 - c.0 })
    + (if a.1 <= c.1 { c.1 - a.1 } else { a.1 - c.1 })
}

/// Two sequences that precede each other are the same.
pub proof fn lemma_precedes_antisymmetric(a: Seq<int>, c: Seq<int>)
    requires
        precedes(a, c),
        precedes(c, a),
    ensures
        a == c,
{
    if a != c {
        let i = choose|i: int| 0 <= i < a.len() && #[trigger] agree_before(a, c, i) && a[i] < c[i];
        let j = choose|j: int| 0 <= j < c.len() && #[trigger] agree_before(c, a, j) && c[j] < a[j];
        if i < j {
            assert(c[i] == a[i]);
        } else if j < i {
            assert(a[j] == c[j]);
        }
    }
}

/// What precedes a sequence precedes what that sequence precedes, and is
/// different from it unless all three are the same.
pub proof fn lemma_precedes_chain(a: Seq<int>, m: Seq<int>, c: Seq<int>)
    requires
        precedes(a, m),
        precedes(m, c),
    ensures
        precedes(a, c),
        a != m || m != c ==> a != c,
{
    if a != m && m != c {
        let i = choose|i: int| 0 <= i < a.len() && #[trigger] agree_before(a, m, i) && a[i] < m[i];
        let j = choose|j: int| 0 <= j < m.len() && #[trigger] agree_before(m, c, j) && m[j] < c[j];
        let first = if i <= j {
            i
        } else {
            j
        };
        assert(agree_before(a, c, first)) by {
            assert forall|x: int| 0 <= x < first implies a[x] == c[x] by {
                assert(a[x] == m[x]);
                assert(m[x] == c[x]);
            }
        }
        if i < j {
            assert(m[i] == c[i]);
        } else if j < i {
            assert(a[j] == m[j]);
        }
        assert(a[first] < c[first]);
    } else if a != m {
        assert(m =~= c);
    } else {
        assert(a =~= m);
    }
}

/// Two equally long sequences, each with one more entry at its end, stand
/// in the order of the sequences, or where these are the same, in the order
/// of the two new entries.
pub proof fn lemma_precedes_push(a: Seq<int>, c: Seq<int>, x: int, y: int)
    requires
        a.len() == c.len(),
        (a != c && precedes(a, c)) || (a == c && x <= y),
    ensures
        precedes(a.push(x), c.push(y)),
        a != c || x != y ==> a.push(x) != c.push(y),
{
    let ax = a.push(x);
    let cy = c.push(y);
    if a != c {
        let i = choose|i: int| 0 <= i < a.len() && #[trigger] agree_before(a, c, i) && a[i] < c[i];
        assert(agree_before(ax, cy, i)) by {
            assert forall|j: int| 0 <= j < i implies ax[j] == cy[j] by {
                assert(a[j] == c[j]);
            }
        }
        assert(ax[i] < cy[i]);
        assert(ax[i] != cy[i]);
    } else if x < y {
        let n = a.len() as int;
        assert(agree_before(ax, cy, n));
        assert(ax[n] < cy[n]);
        assert(ax[n] != cy[n]);
    } else {
        assert(ax =~= cy);
    }
}

/// A route is still a route when cut short after `k` steps.
pub proof fn lemma_prefix(
    b: Seq<Seq<Square>>,
    drill: bool,
    start: (int, int),
    dirs: Seq<int>,
    k: int,
)
    requires
        is_route(b, drill, start, dirs),
        0 <= k <= dirs.len(),
    ensures
        is_route(b, drill, start, dirs.take(k)),
    decreases dirs.len(),
{
    if k == dirs.len() {
        assert(dirs.take(k) =~= dirs);
    } else {
        lemma_prefix(b, drill, start, dirs.drop_last(), k);
        assert(dirs.drop_last().take(k) =~= dirs.take(k));
    }
}

/// Following a route step by step, every step is a direction and lands on a
/// passable cell: in particular on no `Block` unless `drill` is set.
pub proof fn lemma_every_step_passable(
    b: Seq<Seq<Square>>,
    drill: bool,
    start: (int, int),
    dirs: Seq<int>,
    k: int,
)
    requires
        is_route(b, drill, start, dirs),
        0 <= k < dirs.len(),
    ensures
        is_direction(dirs[k]),
        destination(start, dirs.take(k + 1)) == step(destination(start, dirs.take(k)), dirs[k]),
        passable(b, drill, destination(start, dirs.take(k + 1))),
        !drill ==> b[destination(start, dirs.take(k + 1)).1][destination(start, dirs.take(k + 1)).0]
            != Square::Block,
{
    lemma_prefix(b, drill, start, dirs, k + 1);
    let upto = dirs.take(k + 1);
    assert(upto.drop_last() =~= dirs.take(k));
    assert(upto.last() == dirs[k]);
}

/// No route is shorter than the Manhattan distance between its two ends.
pub proof fn lemma_at_least_manhattan(start: (int, int), dirs: Seq<int>)
    ensures
        manhattan(start, destination(start, dirs)) <= dirs.len(),
    decreases dirs.len(),
{
    if dirs.len() > 0 {
        lemma_at_least_manhattan(start, dirs.drop_last());
    }
}

/// Whether `x` lies between `a` and `c`, whichever of the two is larger.
pub open spec fn between(a: int, x: int, c: int) -> bool {
    (a <= x <= c) || (c <= x <= a)
}

/// Whether the cell `c` lies within the rectangle of which `a` and `e` are
/// two opposite corners.
pub open spec fn within(a: (int, int), c: (int, int), e: (int, int)) -> bool {
    between(a.0, c.0, e.0) && between(a.1, c.1, e.1)
}

/// A route of Manhattan length from `start` to `target`: first along the
/// row, then along the column.
pub open spec fn straight(start: (int, int), target: (int, int)) -> Seq<int>
    decreases manhattan(start, target),
{
    if target.1 < start.1 {
        straight(start, (target.0, target.1 + 1)).push(1)
    } else if target.1 > start.1 {
        straight(start, (target.0, target.1 - 1)).push(3)
    } else if target.0 < start.0 {
        straight(start, (target.0 + 1, target.1)).push(2)
    } else if target.0 > start.0 {
        straight(start, (target.0 - 1, target.1)).push(0)
    } else {
        Seq::empty()
    }
}

/// Where every cell between `start` and `target` may be entered, the
/// straight route connects the two in Manhattan distance many steps.
pub proof fn lemma_straight(b: Seq<Seq<Square>>, drill: bool, start: (int, int), target: (int, int))
    requires
        forall|c: (int, int)| within(start, c, target) ==> #[trigger] passable(b, drill, c),
    ensures
        connects(b, drill, start, target, straight(start, target)),
        straight(start, target).len() == manhattan(start, target),
    decreases manhattan(start, target),
{
    let near = if target.1 < start.1 {
        (target.0, target.1 + 1)
    } else if target.1 > start.1 {
        (target.0, target.1 - 1)
    } else if target.0 < start.0 {
        (target.0 + 1, target.1)
    } else {
        (target.0 - 1, target.1)
    };
    if target != start {
        assert forall|c: (int, int)| within(start, c, near) implies #[trigger] passable(b, drill, c) by {
            assert(within(start, c, target));
        }
        lemma_straight(b, drill, start, near);
        let dirs = straight(start, target);
        assert(dirs.drop_last() =~= straight(start, near));
        assert(passable(b, drill, target));
    }
}

/// On a board where every cell may be entered, the straight route connects
/// any two cells of the board.
pub proof fn lemma_open_board_route(
    b: Seq<Seq<Square>>,
    drill: bool,
    height: nat,
    width: nat,
    start: (int, int),
    target: (int, int),
)
    requires
        is_rectangle(b, height, width),
        in_bounds(b, start),
        in_bounds(b, target),
        drill || obstacle_free(b),
    ensures
        connects(b, drill, start, target, straight(start, target)),
        straight(start, target).len() == manhattan(start, target),
{
    assert forall|c: (int, int)| within(start, c, target) implies #[trigger] passable(b, drill, c) by {
        assert(in_bounds(b, c));
    }
    lemma_straight(b, drill, start, target);
}

/// The opposite of direction `d`.
pub open spec fn opposite(d: int) -> int {
    if d < 2 {
        d + 2
    } else {
        d - 2
    }
}

/// No route leads from a passable cell to another cell none of whose four
/// neighbours is passable.
pub proof fn lemma_enclosed(
    b: Seq<Seq<Square>>,
    start: (int, int),
    target: (int, int),
    dirs: Seq<int>,
)
    requires
        start != target,
        passable(b, false, start),
        forall|d: int| is_direction(d) ==> !passable(b, false, #[trigger] step(target, d)),
    ensures
        !connects(b, false, start, target, dirs),
{
    if connects(b, false, start, target, dirs) {
        let from = destination(start, dirs.drop_last());
        let d = dirs.last();
        assert(step(from, d) == target);
        assert(is_direction(opposite(d)));
        assert(step(target, opposite(d)) == from);
        if dirs.len() == 1 {
            assert(from == start);
        } else {
            let before = dirs.drop_last();
            assert(is_route(b, false, start, before));
            assert(passable(b, false, destination(start, before)));
        }
    }
}

} // verus!
