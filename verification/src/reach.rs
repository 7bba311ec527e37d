//! The search engine: breadth-first search for the fewest moves to a target.

use crate::action::{directions, Action};
use crate::answer::{
    is_answer, lemma_answer_at_start, lemma_answer_moves_only, lemma_answer_on_open_board, plain,
};
use crate::board::{board, can_enter, in_bounds, is_rectangle, obstacle_free, passable};
use crate::movement::{apply_move, is_direction, step};
use crate::player::PlayerState;
use crate::route::{
    connects, destination, is_first_shortest, is_route, is_unreachable, lemma_precedes_chain,
    lemma_precedes_push, manhattan, precedes,
};
use crate::square::Square;
use vstd::prelude::*;
use vstd::set_lib::{lemma_int_range, set_int_range};

verus! {

/// The distance entry of a cell that the search has not reached.
const UNSEEN: usize = usize::MAX;

/// A breadth-first search engine for boards of one size.
///
/// The engine owns its working tables: a distance per cell, the direction
/// by which each cell was first reached, and the queue of cells to expand.
/// They are allocated once and cleared at the start of every query.
pub struct BFS {
    height: usize,
    width: usize,
    dist: Vec<usize>,
    prev: Vec<usize>,
    queue: Vec<(usize, usize)>,
}

/// What a search is asked: the board, whether a drill is in effect, and the
/// cell to start from.
struct Quest {
    board: Seq<Seq<Square>>,
    drill: bool,
    start: (int, int),
}

/// How far a search has come.
struct Progress {
    /// For each cell, by its place in the tables, the route by which the
    /// search reached it.
    routes: Seq<Seq<int>>,
    /// For each cell, by its place in the tables, its place in the queue.
    order: Seq<int>,
    /// The place of the queue that is being expanded.
    head: int,
    /// The direction of that place which is looked at next.
    k: int,
    /// The number of places of the queue that are in use.
    tail: int,
}

impl Progress {
    /// The progress after direction `k` was looked at and led to nothing
    /// new.
    spec fn skip(self) -> Progress {
        Progress { k: self.k + 1, ..self }
    }

    /// The progress after all directions of the place `head` were looked at.
    spec fn advance(self) -> Progress {
        Progress { head: self.head + 1, k: 0, ..self }
    }

    /// The progress after direction `k` led from the cell in place `from` of
    /// the tables to a new cell, which has the place `to` there.
    spec fn reach(self, from: int, to: int) -> Progress {
        Progress {
            routes: self.routes.update(to, self.routes[from].push(self.k)),
            order: self.order.update(to, self.tail),
            k: self.k + 1,
            tail: self.tail + 1,
            ..self
        }
    }
}

/// The cell from which one step in direction `d` leads to `c`.
spec fn back(c: (int, int), d: int) -> (int, int) {
    if d == 0 {
        (c.0 - 1, c.1)
    } else if d == 1 {
        (c.0, c.1 + 1)
    } else if d == 2 {
        (c.0 + 1, c.1)
    } else if d == 3 {
        (c.0, c.1 - 1)
    } else {
        c
    }
}

/// The place of cell `c` in a table that holds the rows one after the other.
spec fn slot_in(width: int, c: (int, int)) -> int {
    c.1 * width + c.0
}

/// Cells of a board of `height` rows and `width` columns have places of
/// their own within the table.
proof fn lemma_slot(width: int, height: int, c: (int, int), e: (int, int))
    requires
        0 <= c.0 < width,
        0 <= c.1 < height,
        0 <= e.0 < width,
        0 <= e.1 < height,
    ensures
        0 <= slot_in(width, c) < height * width,
        0 <= c.1 * width <= height * width,
        c != e ==> slot_in(width, c) != slot_in(width, e),
{
    assert(0 <= c.1 * width && c.1 * width + width <= height * width) by (nonlinear_arith)
        requires
            0 <= c.1 < height,
            0 < width,
    ;
    if c.1 < e.1 {
        assert(c.1 * width + width <= e.1 * width) by (nonlinear_arith)
            requires
                c.1 < e.1,
                0 < width,
        ;
    }
    if e.1 < c.1 {
        assert(e.1 * width + width <= c.1 * width) by (nonlinear_arith)
            requires
                e.1 < c.1,
                0 < width,
        ;
    }
}

impl BFS {
    /// The number of rows of the boards this engine searches.
    pub closed spec fn height(&self) -> nat {
        self.height as nat
    }

    /// The number of columns of the boards this engine searches.
    pub closed spec fn width(&self) -> nat {
        self.width as nat
    }

    /// Whether the working tables have one entry for every cell.
    pub closed spec fn wf(&self) -> bool {
        &&& self.height * self.width <= usize::MAX
        &&& self.dist@.len() == self.height * self.width
        &&& self.prev@.len() == self.height * self.width
        &&& self.queue@.len() == self.height * self.width
    }

    /// An engine for boards of `height` rows and `width` columns.
    pub fn new(height: usize, width: usize) -> (engine: BFS)
        requires
            height * width <= usize::MAX,
        ensures
            engine.wf(),
            engine.height() == height,
            engine.width() == width,
    {
        let cells = height * width;
        BFS {
            height,
            width,
            dist: vec![UNSEEN; cells],
            prev: vec![0usize; cells],
            queue: vec![(0usize, 0usize); cells],
        }
    }

    /// Decides whether `grid` has the size this engine was made for.
    pub fn fits(&self, grid: &Vec<Vec<Square>>) -> (ok: bool)
        ensures
            ok == is_rectangle(board(grid), self.height(), self.width()),
    {
        if grid.len() != self.height {
            return false;
        }
        let mut y: usize = 0;
        while y < grid.len()
            invariant
                y <= grid@.len(),
                grid@.len() == self.height,
                forall|j: int| 0 <= j < y ==> (#[trigger] board(grid)[j]).len() == self.width,
            decreases grid@.len() - y,
        {
            if grid[y].len() != self.width {
                assert(board(grid)[y as int].len() != self.width);
                return false;
            }
            y += 1;
        }
        true
    }

    /// The number of cells, and of entries in each table.
    spec fn cells(&self) -> int {
        self.height * self.width
    }

    /// Whether `c` is a cell of the boards this engine searches.
    spec fn inside(&self, c: (int, int)) -> bool {
        0 <= c.0 < self.width && 0 <= c.1 < self.height
    }

    /// The place of `c` in the tables.
    spec fn slot(&self, c: (int, int)) -> int {
        slot_in(self.width as int, c)
    }

    /// Whether the search has reached `c`.
    spec fn seen(&self, c: (int, int)) -> bool {
        self.inside(c) && self.dist@[self.slot(c)] != UNSEEN
    }

    /// The number of moves by which the search reached `c`.
    spec fn depth(&self, c: (int, int)) -> int {
        self.dist@[self.slot(c)] as int
    }

    /// The direction of the move by which the search reached `c`.
    spec fn via(&self, c: (int, int)) -> int {
        self.prev@[self.slot(c)] as int
    }

    /// The cell from which the search reached `c`.
    spec fn parent(&self, c: (int, int)) -> (int, int) {
        back(c, self.via(c))
    }

    /// The cell in place `j` of the queue.
    spec fn at(&self, j: int) -> (int, int) {
        (self.queue@[j].0 as int, self.queue@[j].1 as int)
    }

    /// Whether `c`, if reached and not the start, was reached over a
    /// passable step from a cell that was reached one move earlier.
    spec fn joined(&self, q: Quest, c: (int, int)) -> bool {
        self.seen(c) && c != q.start ==> {
            &&& is_direction(self.via(c))
            &&& passable(q.board, q.drill, c)
            &&& self.seen(self.parent(c))
            &&& self.depth(self.parent(c)) + 1 == self.depth(c)
        }
    }

    /// Whether `routes` holds, for `c` if reached, the route by which the
    /// search reached it: as long as the depth of `c`, leading from the
    /// start to `c`, and made of the route to the cell before `c` and the
    /// step from there.
    spec fn traced(&self, q: Quest, routes: Seq<Seq<int>>, c: (int, int)) -> bool {
        self.seen(c) ==> {
            let r = routes[self.slot(c)];
            &&& r.len() == self.depth(c)
            &&& connects(q.board, q.drill, q.start, c, r)
            &&& c != q.start ==> r == routes[self.slot(self.parent(c))].push(self.via(c))
        }
    }

    /// Whether the tables describe a tree of routes rooted at the start: the
    /// start has depth 0, every other reached cell hangs on a reached cell,
    /// and `routes` holds the route down the tree to each reached cell.
    spec fn linked(&self, q: Quest, routes: Seq<Seq<int>>) -> bool {
        &&& self.wf()
        &&& is_rectangle(q.board, self.height(), self.width())
        &&& self.seen(q.start)
        &&& self.depth(q.start) == 0
        &&& routes.len() == self.cells()
        &&& forall|c: (int, int)| #[trigger] self.joined(q, c)
        &&& forall|c: (int, int)| #[trigger] self.traced(q, routes, c)
    }

    /// Whether `c`, if reached, stands in the queue at the place that
    /// `m.order` gives for it, a place no smaller than its depth.
    spec fn ranked(&self, m: Progress, c: (int, int)) -> bool {
        self.seen(c) ==> {
            let j = m.order[self.slot(c)];
            &&& 0 <= j < m.tail
            &&& self.at(j) == c
            &&& self.depth(c) <= j
        }
    }

    /// Whether place `j` of the queue, if in use, holds a reached cell whose
    /// place according to `m.order` is `j`.
    spec fn filled(&self, m: Progress, j: int) -> bool {
        0 <= j < m.tail ==> self.seen(self.at(j)) && m.order[self.slot(self.at(j))] == j
    }

    /// Whether `c` and `e`, if both reached and `c` queued no later than `e`,
    /// have depths in the same order.
    spec fn sorted(&self, m: Progress, c: (int, int), e: (int, int)) -> bool {
        self.seen(c) && self.seen(e) && m.order[self.slot(c)] <= m.order[self.slot(e)]
            ==> self.depth(c) <= self.depth(e)
    }

    /// Whether the neighbour of `c` in direction `d`, if passable, has been
    /// reached at most one move after `c`.
    spec fn settled(&self, q: Quest, c: (int, int), d: int) -> bool {
        passable(q.board, q.drill, step(c, d)) ==> self.seen(step(c, d)) && self.depth(step(c, d))
            <= self.depth(c) + 1
    }

    /// Whether direction `d` of the cell in place `j` of the queue, if the
    /// search is past it, is settled. The search is past every direction of
    /// the places before `m.head` and past the directions before `m.k` of
    /// the place `m.head`.
    spec fn expanded(&self, q: Quest, m: Progress, j: int, d: int) -> bool {
        is_direction(d) && 0 <= j && (j < m.head || (j == m.head && d < m.k)) ==> self.settled(
            q,
            self.at(j),
            d,
        )
    }

    /// The state of a search under way: the queue holds the reached cells in
    /// the order of their depths, the places before `m.head` are expanded,
    /// and the place `m.head` is expanded up to direction `m.k`.
    spec fn exploring(&self, q: Quest, m: Progress) -> bool {
        &&& self.linked(q, m.routes)
        &&& m.order.len() == self.cells()
        &&& 0 <= m.head <= m.tail <= self.cells()
        &&& 1 <= m.tail
        &&& 0 <= m.k <= 4
        &&& m.head == m.tail ==> m.k == 0
        &&& self.at(0) == q.start
        &&& forall|c: (int, int)| #[trigger] self.ranked(m, c)
        &&& forall|j: int| #[trigger] self.filled(m, j)
        &&& forall|c: (int, int), e: (int, int)| #[trigger] self.sorted(m, c, e)
        &&& m.head < m.tail ==> self.depth(self.at(m.tail - 1)) <= self.depth(self.at(m.head)) + 1
        &&& forall|j: int, d: int| #[trigger] self.expanded(q, m, j, d)
    }

    /// Whether `c` and `e`, if reached in the same number of moves and `c`
    /// queued before `e`, have routes in the order of a dictionary, and not
    /// the same route.
    spec fn ordered(&self, m: Progress, c: (int, int), e: (int, int)) -> bool {
        self.seen(c) && self.seen(e) && m.order[self.slot(c)] < m.order[self.slot(e)]
            && self.depth(c) == self.depth(e) ==> m.routes[self.slot(c)] != m.routes[self.slot(e)]
            && precedes(m.routes[self.slot(c)], m.routes[self.slot(e)])
    }

    /// Whether the route to `c`, if `c` is reached, precedes the route `r`,
    /// if that leads to `c` as well and is as long.
    spec fn least(&self, q: Quest, m: Progress, c: (int, int), r: Seq<int>) -> bool {
        self.seen(c) && connects(q.board, q.drill, q.start, c, r) && r.len() == self.depth(c)
            ==> precedes(m.routes[self.slot(c)], r)
    }

    /// Whether `c`, if reached and not the start, was reached from a place
    /// of the queue and in a direction that the search is past.
    spec fn hung(&self, q: Quest, m: Progress, c: (int, int)) -> bool {
        self.seen(c) && c != q.start ==> {
            let j = m.order[self.slot(self.parent(c))];
            j < m.head || (j == m.head && self.via(c) < m.k)
        }
    }

    /// Whether the routes of the search are the first in the order of a
    /// dictionary: each precedes every other route of its length to the same
    /// cell, and the queue holds the cells of one depth in the order of
    /// their routes.
    spec fn charted(&self, q: Quest, m: Progress) -> bool {
        &&& forall|c: (int, int), e: (int, int)| #[trigger] self.ordered(m, c, e)
        &&& forall|c: (int, int), r: Seq<int>| #[trigger] self.least(q, m, c, r)
        &&& forall|c: (int, int)| #[trigger] self.hung(q, m, c)
    }

    /// On a rectangle of the engine's size, the cells of the board are the
    /// cells of the tables.
    proof fn lemma_inside(&self, b: Seq<Seq<Square>>, c: (int, int))
        requires
            is_rectangle(b, self.height(), self.width()),
        ensures
            in_bounds(b, c) <==> self.inside(c),
    {
    }

    /// Every route from the start ends on a cell that was reached in no more
    /// moves, unless the place `m.head` of the queue is yet to be expanded
    /// and its cell has a smaller depth than the route has moves.
    proof fn lemma_lower_bound(&self, q: Quest, m: Progress, dirs: Seq<int>)
        requires
            self.exploring(q, m),
            is_route(q.board, q.drill, q.start, dirs),
        ensures
            ({
                let c = destination(q.start, dirs);
                ||| self.seen(c) && self.depth(c) <= dirs.len()
                ||| m.head < m.tail && self.depth(self.at(m.head)) < dirs.len()
            }),
        decreases dirs.len(),
    {
        if dirs.len() > 0 {
            let d = dirs.last();
            let from = destination(q.start, dirs.drop_last());
            self.lemma_lower_bound(q, m, dirs.drop_last());
            if self.seen(from) && self.depth(from) <= dirs.len() - 1 {
                assert(self.ranked(m, from));
                let j = m.order[self.slot(from)];
                if j < m.head {
                    assert(self.expanded(q, m, j, d));
                } else {
                    assert(self.filled(m, m.head));
                    assert(self.sorted(m, self.at(m.head), from));
                }
            }
        }
    }

    /// Once the target is reached, its route is the first of the shortest
    /// routes to it.
    proof fn lemma_found(&self, q: Quest, m: Progress, t: (int, int))
        requires
            self.exploring(q, m),
            self.charted(q, m),
            self.seen(t),
        ensures
            is_first_shortest(q.board, q.drill, q.start, t, m.routes[self.slot(t)]),
    {
        let best = m.routes[self.slot(t)];
        assert(self.traced(q, m.routes, t));
        assert forall|dirs: Seq<int>| #[trigger]
            connects(q.board, q.drill, q.start, t, dirs) implies best.len() <= dirs.len() by {
            self.lemma_lower_bound(q, m, dirs);
            if m.head < m.tail {
                assert(self.ranked(m, t));
                assert(self.filled(m, m.tail - 1));
                assert(self.sorted(m, t, self.at(m.tail - 1)));
            }
        }
        assert forall|dirs: Seq<int>|
            dirs.len() == best.len() && #[trigger] connects(
                q.board,
                q.drill,
                q.start,
                t,
                dirs,
            ) implies precedes(best, dirs) by {
            assert(self.least(q, m, t, dirs));
        }
    }

    /// Once the queue is used up, a cell that was not reached has no route
    /// to it.
    proof fn lemma_exhausted(&self, q: Quest, m: Progress, t: (int, int))
        requires
            self.exploring(q, m),
            m.head == m.tail,
            !self.seen(t),
        ensures
            is_unreachable(q.board, q.drill, q.start, t),
    {
        assert forall|dirs: Seq<int>| !#[trigger] connects(q.board, q.drill, q.start, t, dirs) by {
            if connects(q.board, q.drill, q.start, t, dirs) {
                self.lemma_lower_bound(q, m, dirs);
            }
        }
    }

    /// The search may go on to the next direction when the neighbour in
    /// direction `m.k` cannot be entered or was reached before.
    proof fn lemma_skip(&self, q: Quest, m: Progress)
        requires
            self.exploring(q, m),
            self.charted(q, m),
            m.head < m.tail,
            m.k < 4,
            !passable(q.board, q.drill, step(self.at(m.head), m.k)) || self.seen(
                step(self.at(m.head), m.k),
            ),
        ensures
            self.exploring(q, m.skip()),
            self.charted(q, m.skip()),
    {
        let n = step(self.at(m.head), m.k);
        let after = m.skip();
        assert forall|c: (int, int)| #[trigger] self.ranked(after, c) by {
            assert(self.ranked(m, c));
        }
        assert forall|j: int| #[trigger] self.filled(after, j) by {
            assert(self.filled(m, j));
        }
        assert forall|c: (int, int), e: (int, int)| #[trigger] self.sorted(after, c, e) by {
            assert(self.sorted(m, c, e));
        }
        assert forall|j: int, d: int| #[trigger] self.expanded(q, after, j, d) by {
            assert(self.expanded(q, m, j, d));
            if j == m.head && d == m.k && passable(q.board, q.drill, n) {
                assert(self.ranked(m, n));
                assert(self.filled(m, m.tail - 1));
                assert(self.sorted(m, n, self.at(m.tail - 1)));
            }
        }
        assert forall|c: (int, int), e: (int, int)| #[trigger] self.ordered(after, c, e) by {
            assert(self.ordered(m, c, e));
        }
        assert forall|c: (int, int), r: Seq<int>| #[trigger] self.least(q, after, c, r) by {
            assert(self.least(q, m, c, r));
        }
        assert forall|c: (int, int)| #[trigger] self.hung(q, after, c) by {
            assert(self.hung(q, m, c));
        }
    }

    /// The search may go on to the next place of the queue when all four
    /// directions of the place `m.head` are done.
    proof fn lemma_advance(&self, q: Quest, m: Progress)
        requires
            self.exploring(q, m),
            self.charted(q, m),
            m.head < m.tail,
            m.k == 4,
        ensures
            self.exploring(q, m.advance()),
            self.charted(q, m.advance()),
    {
        let after = m.advance();
        assert forall|c: (int, int)| #[trigger] self.ranked(after, c) by {
            assert(self.ranked(m, c));
        }
        assert forall|j: int| #[trigger] self.filled(after, j) by {
            assert(self.filled(m, j));
        }
        assert forall|c: (int, int), e: (int, int)| #[trigger] self.sorted(after, c, e) by {
            assert(self.sorted(m, c, e));
        }
        assert forall|j: int, d: int| #[trigger] self.expanded(q, after, j, d) by {
            assert(self.expanded(q, m, j, d));
        }
        if m.head + 1 < m.tail {
            assert(self.filled(m, m.head));
            assert(self.filled(m, m.head + 1));
            assert(self.sorted(m, self.at(m.head), self.at(m.head + 1)));
        }
        assert forall|c: (int, int), e: (int, int)| #[trigger] self.ordered(after, c, e) by {
            assert(self.ordered(m, c, e));
        }
        assert forall|c: (int, int), r: Seq<int>| #[trigger] self.least(q, after, c, r) by {
            assert(self.least(q, m, c, r));
        }
        assert forall|c: (int, int)| #[trigger] self.hung(q, after, c) by {
            assert(self.hung(q, m, c));
            assert(self.joined(q, c));
        }
    }

    /// A search begins with the start alone in the queue.
    proof fn lemma_begin(&self, q: Quest, m: Progress)
        requires
            self.wf(),
            is_rectangle(q.board, self.height(), self.width()),
            self.inside(q.start),
            m.order.len() == self.cells(),
            m.order[self.slot(q.start)] == 0,
            m.routes.len() == self.cells(),
            m.routes[self.slot(q.start)] == Seq::<int>::empty(),
            m.head == 0,
            m.k == 0,
            m.tail == 1,
            self.at(0) == q.start,
            self.dist@[self.slot(q.start)] == 0,
            forall|i: int|
                0 <= i < self.cells() && i != self.slot(q.start) ==> self.dist@[i] == UNSEEN,
        ensures
            self.exploring(q, m),
            self.charted(q, m),
            forall|c: (int, int)| self.seen(c) <==> c == q.start,
    {
        let s = q.start;
        assert forall|c: (int, int)| self.seen(c) <==> c == s by {
            if self.inside(c) {
                lemma_slot(self.width as int, self.height as int, c, s);
            }
        }
        lemma_slot(self.width as int, self.height as int, s, s);
        assert forall|c: (int, int)| #[trigger] self.joined(q, c) by {}
        assert forall|c: (int, int)| #[trigger] self.traced(q, m.routes, c) by {}
        assert forall|c: (int, int)| #[trigger] self.ranked(m, c) by {}
        assert forall|j: int| #[trigger] self.filled(m, j) by {}
        assert forall|c: (int, int), e: (int, int)| #[trigger] self.sorted(m, c, e) by {}
        assert forall|j: int, d: int| #[trigger] self.expanded(q, m, j, d) by {}
        assert forall|c: (int, int), e: (int, int)| #[trigger] self.ordered(m, c, e) by {}
        assert forall|c: (int, int), r: Seq<int>| #[trigger] self.least(q, m, c, r) by {
            if r.len() == 0 {
                assert(r =~= Seq::<int>::empty());
            }
        }
        assert forall|c: (int, int)| #[trigger] self.hung(q, m, c) by {}
    }

    /// What the tables hold, for a cell other than `n`, after `n` was
    /// entered into them to make `post`.
    spec fn kept(&self, post: &BFS, n: (int, int), c: (int, int)) -> bool {
        self.inside(c) && c != n ==> {
            &&& post.slot(c) == self.slot(c)
            &&& 0 <= self.slot(c) < self.cells()
            &&& self.slot(c) != self.slot(n)
            &&& post.seen(c) == self.seen(c)
            &&& post.depth(c) == self.depth(c)
            &&& post.via(c) == self.via(c)
        }
    }

    /// Whether `post` is `self` after the neighbour `n` of the place
    /// `m.head` in direction `m.k` was reached for the first time: `n` is
    /// entered into the tables and put at the end of the queue.
    spec fn marks(&self, post: &BFS, q: Quest, m: Progress, n: (int, int)) -> bool {
        &&& m.head < m.tail < self.cells()
        &&& 0 <= m.k < 4
        &&& n == step(self.at(m.head), m.k)
        &&& self.inside(n)
        &&& !self.seen(n)
        &&& passable(q.board, q.drill, n)
        &&& post.height == self.height
        &&& post.width == self.width
        &&& post.dist@ == self.dist@.update(
            self.slot(n),
            (self.depth(self.at(m.head)) + 1) as usize,
        )
        &&& post.prev@ == self.prev@.update(self.slot(n), m.k as usize)
        &&& post.queue@ == self.queue@.update(m.tail, (n.0 as usize, n.1 as usize))
    }

    /// Entering a new cell into the tables leaves what they hold for the
    /// other cells as it was.
    proof fn lemma_kept(&self, post: &BFS, q: Quest, m: Progress, n: (int, int))
        requires
            self.exploring(q, m),
            self.marks(post, q, m, n),
        ensures
            forall|c: (int, int)| #[trigger] self.kept(post, n, c),
            forall|c: (int, int)| post.seen(c) <==> self.seen(c) || c == n,
            forall|j: int| 0 <= j < m.tail ==> post.at(j) == self.at(j),
            post.at(m.tail) == n,
            post.slot(n) == self.slot(n),
            0 <= self.slot(n) < self.cells(),
            post.depth(n) == self.depth(self.at(m.head)) + 1,
            post.via(n) == m.k,
            post.parent(n) == self.at(m.head),
            self.seen(self.at(m.head)),
            self.at(m.head) != n,
            m.order[self.slot(self.at(m.head))] == m.head,
            self.depth(self.at(m.head)) <= m.head,
    {
        let w = self.width as int;
        let h = self.height as int;
        let cur = self.at(m.head);
        assert(self.filled(m, m.head));
        assert(self.ranked(m, cur));
        lemma_slot(w, h, n, n);
        lemma_slot(w, h, cur, n);
        assert forall|c: (int, int)| #[trigger] self.kept(post, n, c) by {
            if self.inside(c) && c != n {
                lemma_slot(w, h, c, n);
            }
        }
        assert forall|c: (int, int)| post.seen(c) <==> self.seen(c) || c == n by {
            assert(self.kept(post, n, c));
        }
    }

    /// Reaching a new cell keeps the search in order.
    proof fn lemma_mark(&self, post: &BFS, q: Quest, m: Progress, n: (int, int))
        requires
            self.exploring(q, m),
            self.marks(post, q, m, n),
        ensures
            post.exploring(q, m.reach(self.slot(self.at(m.head)), self.slot(n))),
    {
        let cur = self.at(m.head);
        let after = m.reach(self.slot(cur), self.slot(n));
        self.lemma_kept(post, q, m, n);
        assert(self.kept(post, n, cur));
        assert(self.kept(post, n, q.start));
        assert forall|c: (int, int)| #[trigger] post.joined(q, c) by {
            assert(self.joined(q, c));
            assert(self.kept(post, n, c));
            if post.seen(c) && c != q.start && c != n {
                assert(self.kept(post, n, self.parent(c)));
            }
        }
        assert forall|c: (int, int)| #[trigger] post.traced(q, after.routes, c) by {
            assert(self.traced(q, m.routes, c));
            assert(self.joined(q, c));
            assert(self.kept(post, n, c));
            if post.seen(c) && c != n {
                if c != q.start {
                    assert(self.kept(post, n, self.parent(c)));
                }
            } else if c == n {
                assert(self.traced(q, m.routes, cur));
                let r = after.routes[post.slot(n)];
                assert(r.drop_last() =~= m.routes[self.slot(cur)]);
                assert(r.last() == m.k);
            }
        }
        assert forall|c: (int, int)| #[trigger] post.ranked(after, c) by {
            assert(self.ranked(m, c));
            assert(self.kept(post, n, c));
        }
        assert forall|j: int| #[trigger] post.filled(after, j) by {
            assert(self.filled(m, j));
            if 0 <= j < m.tail {
                assert(self.kept(post, n, self.at(j)));
            }
        }
        assert forall|c: (int, int), e: (int, int)| #[trigger] post.sorted(after, c, e) by {
            assert(self.sorted(m, c, e));
            assert(self.ranked(m, c));
            assert(self.ranked(m, e));
            assert(self.kept(post, n, c));
            assert(self.kept(post, n, e));
            if post.seen(c) && post.seen(e) && e == n && c != n {
                assert(self.filled(m, m.tail - 1));
                assert(self.sorted(m, c, self.at(m.tail - 1)));
            }
        }
        assert(post.depth(post.at(m.tail)) <= post.depth(post.at(m.head)) + 1);
        assert forall|j: int, d: int| #[trigger] post.expanded(q, after, j, d) by {
            assert(self.expanded(q, m, j, d));
            assert(self.filled(m, j));
            if is_direction(d) && 0 <= j && (j < m.head || (j == m.head && d <= m.k)) {
                assert(self.kept(post, n, self.at(j)));
                let x = step(self.at(j), d);
                if passable(q.board, q.drill, x) && x != n {
                    assert(self.kept(post, n, x));
                }
            }
        }
    }

    /// Reaching a new cell keeps the routes of the search the first in the
    /// order of a dictionary.
    proof fn lemma_chart(&self, post: &BFS, q: Quest, m: Progress, n: (int, int))
        requires
            self.exploring(q, m),
            self.charted(q, m),
            self.marks(post, q, m, n),
        ensures
            post.charted(q, m.reach(self.slot(self.at(m.head)), self.slot(n))),
    {
        let cur = self.at(m.head);
        let after = m.reach(self.slot(cur), self.slot(n));
        self.lemma_kept(post, q, m, n);
        assert(self.traced(q, m.routes, cur));
        assert(self.kept(post, n, cur));
        assert forall|c: (int, int)| #[trigger] post.hung(q, after, c) by {
            assert(self.hung(q, m, c));
            assert(self.joined(q, c));
            assert(self.kept(post, n, c));
            if post.seen(c) && c != q.start && c != n {
                assert(self.kept(post, n, self.parent(c)));
            }
        }
        assert forall|c: (int, int), e: (int, int)| #[trigger] post.ordered(after, c, e) by {
            assert(self.ordered(m, c, e));
            assert(self.ranked(m, c));
            assert(self.ranked(m, e));
            assert(self.kept(post, n, c));
            assert(self.kept(post, n, e));
            if post.seen(c) && post.seen(e) && e == n && c != n && post.depth(c) == post.depth(n) {
                self.lemma_earlier(q, m, c);
            }
        }
        assert forall|c: (int, int), r: Seq<int>| #[trigger] post.least(q, after, c, r) by {
            assert(self.least(q, m, c, r));
            assert(self.kept(post, n, c));
            if c == n && connects(q.board, q.drill, q.start, n, r) && r.len() == post.depth(n) {
                self.lemma_later(post, q, m, n, r);
            }
        }
    }

    /// A cell one move deeper than the place `m.head` that is in the queue
    /// already has a route that precedes the route over the place `m.head`
    /// in direction `m.k`, and is not that route.
    proof fn lemma_earlier(&self, q: Quest, m: Progress, c: (int, int))
        requires
            self.exploring(q, m),
            self.charted(q, m),
            m.head < m.tail,
            0 <= m.k < 4,
            self.seen(c),
            self.depth(c) == self.depth(self.at(m.head)) + 1,
        ensures
            precedes(m.routes[self.slot(c)], m.routes[self.slot(self.at(m.head))].push(m.k)),
            m.routes[self.slot(c)] != m.routes[self.slot(self.at(m.head))].push(m.k),
    {
        let cur = self.at(m.head);
        let from = self.parent(c);
        assert(self.filled(m, m.head));
        assert(self.joined(q, c));
        assert(self.traced(q, m.routes, c));
        assert(self.traced(q, m.routes, from));
        assert(self.traced(q, m.routes, cur));
        assert(self.hung(q, m, c));
        assert(self.ranked(m, from));
        if m.order[self.slot(from)] < m.head {
            assert(self.ordered(m, from, cur));
        }
        lemma_precedes_push(m.routes[self.slot(from)], m.routes[self.slot(cur)], self.via(c), m.k);
    }

    /// Every route as long as the one over the place `m.head` in direction
    /// `m.k` that leads to the same cell, reached just now, comes no earlier
    /// in the order of a dictionary.
    proof fn lemma_later(&self, post: &BFS, q: Quest, m: Progress, n: (int, int), r: Seq<int>)
        requires
            self.exploring(q, m),
            self.charted(q, m),
            self.marks(post, q, m, n),
            connects(q.board, q.drill, q.start, n, r),
            r.len() == self.depth(self.at(m.head)) + 1,
        ensures
            precedes(m.routes[self.slot(self.at(m.head))].push(m.k), r),
    {
        let cur = self.at(m.head);
        let before = r.drop_last();
        let d = r.last();
        let from = destination(q.start, before);
        assert(self.filled(m, m.head));
        assert(self.traced(q, m.routes, cur));
        self.lemma_lower_bound(q, m, before);
        assert(self.seen(from));
        assert(self.ranked(m, from));
        assert(self.traced(q, m.routes, from));
        let j = m.order[self.slot(from)];
        assert(self.expanded(q, m, j, d));
        assert(r =~= before.push(d));
        if j == m.head {
            assert(d == m.k);
            assert(self.least(q, m, cur, before));
            lemma_precedes_push(m.routes[self.slot(cur)], before, m.k, d);
        } else {
            assert(self.sorted(m, cur, from));
            assert(self.ordered(m, cur, from));
            assert(self.least(q, m, from, before));
            lemma_precedes_chain(m.routes[self.slot(cur)], m.routes[self.slot(from)], before);
            lemma_precedes_push(m.routes[self.slot(cur)], before, m.k, d);
        }
    }

    /// The table index of the cell in column `x` of row `y`.
    fn index(&self, x: usize, y: usize) -> (i: usize)
        requires
            self.wf(),
            self.inside((x as int, y as int)),
        ensures
            i == self.slot((x as int, y as int)),
            i < self.cells(),
    {
        proof {
            lemma_slot(
                self.width as int,
                self.height as int,
                (x as int, y as int),
                (x as int, y as int),
            );
        }
        y * self.width + x
    }

    /// The neighbour of the cell in column `x` of row `y` in direction `k`,
    /// if it lies on the board. The bounds are checked before the move is
    /// made.
    fn neighbor(&self, x: usize, y: usize, k: usize) -> (n: Option<(usize, usize)>)
        requires
            self.wf(),
            self.inside((x as int, y as int)),
            k < 4,
        ensures
            match n {
                Some(to) => (to.0 as int, to.1 as int) == step((x as int, y as int), k as int)
                    && self.inside((to.0 as int, to.1 as int)),
                None => !self.inside(step((x as int, y as int), k as int)),
            },
    {
        let fits = if k == 0 {
            x + 1 < self.width
        } else if k == 1 {
            y > 0
        } else if k == 2 {
            x > 0
        } else {
            y + 1 < self.height
        };
        if fits {
            Some(apply_move((x, y), k))
        } else {
            None
        }
    }

    /// The neighbour of the cell in column `x` of row `y` in direction `k`,
    /// if the search is to go there: it lies on the board, can be entered
    /// and has not been reached.
    fn new_neighbor(
        &self,
        grid: &Vec<Vec<Square>>,
        drill: bool,
        x: usize,
        y: usize,
        k: usize,
    ) -> (n: Option<(usize, usize)>)
        requires
            self.wf(),
            is_rectangle(board(grid), self.height(), self.width()),
            self.inside((x as int, y as int)),
            k < 4,
        ensures
            ({
                let to = step((x as int, y as int), k as int);
                match n {
                    Some(cell) => (cell.0 as int, cell.1 as int) == to && self.inside(to)
                        && !self.seen(to) && passable(board(grid), drill, to),
                    None => !passable(board(grid), drill, to) || self.seen(to),
                }
            }),
    {
        proof {
            self.lemma_inside(board(grid), step((x as int, y as int), k as int));
        }
        match self.neighbor(x, y, k) {
            Some((nx, ny)) => {
                if self.dist[self.index(nx, ny)] == UNSEEN && can_enter(grid, drill, nx, ny) {
                    Some((nx, ny))
                } else {
                    None
                }
            },
            None => None,
        }
    }

    /// Clears the tables: afterwards no cell counts as reached.
    fn reset(&mut self)
        requires
            old(self).wf(),
        ensures
            final(self).wf(),
            final(self).height == old(self).height,
            final(self).width == old(self).width,
            forall|i: int| 0 <= i < final(self).cells() ==> final(self).dist@[i] == UNSEEN,
    {
        let cells = self.dist.len();
        let mut i: usize = 0;
        while i < cells
            invariant
                self.wf(),
                self.height == old(self).height,
                self.width == old(self).width,
                cells == self.cells(),
                i <= cells,
                forall|j: int| 0 <= j < i ==> self.dist@[j] == UNSEEN,
            decreases cells - i,
        {
            self.dist[i] = UNSEEN;
            self.prev[i] = 0;
            i += 1;
        }
    }

    /// Explores the board from `start`, nearest cells first, until `target`
    /// is reached or no cell is left to expand. The second result holds, for
    /// every cell that was reached, the route by which it was reached.
    fn explore(
        &mut self,
        grid: &Vec<Vec<Square>>,
        drill: bool,
        start: (usize, usize),
        target: (usize, usize),
    ) -> (found: (bool, Ghost<Seq<Seq<int>>>))
        requires
            old(self).wf(),
            is_rectangle(board(grid), old(self).height(), old(self).width()),
            old(self).inside((start.0 as int, start.1 as int)),
            old(self).inside((target.0 as int, target.1 as int)),
            forall|i: int| 0 <= i < old(self).cells() ==> old(self).dist@[i] == UNSEEN,
        ensures
            final(self).height == old(self).height,
            final(self).width == old(self).width,
            final(self).linked(
                Quest { board: board(grid), drill, start: (start.0 as int, start.1 as int) },
                found.1@,
            ),
            found.0 == final(self).seen((target.0 as int, target.1 as int)),
            found.0 ==> is_first_shortest(
                board(grid),
                drill,
                (start.0 as int, start.1 as int),
                (target.0 as int, target.1 as int),
                found.1@[final(self).slot((target.0 as int, target.1 as int))],
            ),
            !found.0 ==> is_unreachable(
                board(grid),
                drill,
                (start.0 as int, start.1 as int),
                (target.0 as int, target.1 as int),
            ),
    {
        let ghost q = Quest { board: board(grid), drill, start: (start.0 as int, start.1 as int) };
        let ghost t = (target.0 as int, target.1 as int);
        let ghost cells = self.cells();
        let si = self.index(start.0, start.1);
        self.dist[si] = 0;
        self.queue[0] = start;
        let mut head: usize = 0;
        let mut tail: usize = 1;
        let mut k: usize = 0;
        let mut found = start.0 == target.0 && start.1 == target.1;
        let ghost mut m = Progress {
            routes: Seq::new(cells as nat, |i: int| Seq::<int>::empty()),
            order: Seq::new(cells as nat, |i: int| 0int),
            head: 0,
            k: 0,
            tail: 1,
        };
        let ghost mut fresh: Set<int> = set_int_range(0, cells).remove(si as int);
        proof {
            lemma_int_range(0, cells);
            self.lemma_begin(q, m);
        }
        while !found && head < tail
            invariant
                self.height == old(self).height,
                self.width == old(self).width,
                cells == self.cells(),
                q.board == board(grid),
                q.drill == drill,
                self.inside(t),
                t == (target.0 as int, target.1 as int),
                m.head == head,
                m.k == k,
                m.tail == tail,
                self.exploring(q, m),
                self.charted(q, m),
                found == self.seen(t),
                fresh.finite(),
                fresh.len() + tail == cells,
                forall|i: int| 0 <= i < cells && self.dist@[i] == UNSEEN ==> fresh.contains(i),
            decreases cells - head, 4 - k,
        {
            if k == 4 {
                proof {
                    self.lemma_advance(q, m);
                    m = m.advance();
                }
                head += 1;
                k = 0;
            } else {
                let (cx, cy) = self.queue[head];
                proof {
                    assert(self.filled(m, head as int));
                    assert(self.ranked(m, self.at(head as int)));
                }
                let ci = self.index(cx, cy);
                let level = self.dist[ci];
                let ghost n = step((cx as int, cy as int), k as int);
                match self.new_neighbor(grid, drill, cx, cy, k) {
                    Some((nx, ny)) => {
                        let ni = self.index(nx, ny);
                        let ghost pre = *self;
                        proof {
                            assert(fresh.contains(ni as int));
                        }
                        self.dist[ni] = level + 1;
                        self.prev[ni] = k;
                        self.queue[tail] = (nx, ny);
                        proof {
                            assert(pre.marks(&*self, q, m, n));
                            pre.lemma_kept(&*self, q, m, n);
                            pre.lemma_mark(&*self, q, m, n);
                            pre.lemma_chart(&*self, q, m, n);
                            m = m.reach(ci as int, ni as int);
                            fresh = fresh.remove(ni as int);
                        }
                        tail += 1;
                        if nx == target.0 && ny == target.1 {
                            found = true;
                        }
                    },
                    None => {
                        proof {
                            self.lemma_skip(q, m);
                            m = m.skip();
                        }
                    },
                }
                k += 1;
            }
        }
        proof {
            if found {
                self.lemma_found(q, m, t);
            } else {
                self.lemma_exhausted(q, m, t);
            }
        }
        (found, Ghost(m.routes))
    }

    /// Walks back from `target` along the directions by which the cells were
    /// first reached, and returns the moves in the order from `start`: the
    /// route that `routes` holds for `target`.
    fn trace(
        &self,
        Ghost(q): Ghost<Quest>,
        Ghost(routes): Ghost<Seq<Seq<int>>>,
        start: (usize, usize),
        target: (usize, usize),
    ) -> (path: Vec<Action>)
        requires
            self.linked(q, routes),
            q.start == (start.0 as int, start.1 as int),
            self.seen((target.0 as int, target.1 as int)),
        ensures
            directions(path@) == routes[self.slot((target.0 as int, target.1 as int))],
    {
        let ghost t = (target.0 as int, target.1 as int);
        let mut rev: Vec<Action> = Vec::new();
        let mut cx = target.0;
        let mut cy = target.1;
        assert(directions(rev@.reverse()) =~= Seq::<int>::empty());
        assert(routes[self.slot(t)] + Seq::<int>::empty() =~= routes[self.slot(t)]);
        while cx != start.0 || cy != start.1
            invariant
                self.linked(q, routes),
                q.start == (start.0 as int, start.1 as int),
                self.seen((cx as int, cy as int)),
                routes[self.slot(t)] == routes[self.slot((cx as int, cy as int))] + directions(
                    rev@.reverse(),
                ),
            decreases self.depth((cx as int, cy as int)),
        {
            let ghost cur = (cx as int, cy as int);
            let ghost suffix = directions(rev@.reverse());
            proof {
                assert(self.joined(q, cur));
                assert(self.traced(q, routes, cur));
            }
            let d = self.prev[self.index(cx, cy)];
            rev.push(Action::Move(d));
            if d == 0 {
                cx = cx - 1;
            } else if d == 1 {
                cy = cy + 1;
            } else if d == 2 {
                cx = cx + 1;
            } else {
                cy = cy - 1;
            }
            proof {
                let from = (cx as int, cy as int);
                assert(from == self.parent(cur));
                assert(directions(rev@.reverse()) =~= seq![d as int] + suffix);
                let shorter = routes[self.slot(from)];
                assert(shorter.push(d as int) + suffix =~= shorter + (seq![d as int] + suffix));
            }
        }
        proof {
            assert(self.traced(q, routes, q.start));
            assert(routes[self.slot(q.start)] =~= Seq::<int>::empty());
            assert(routes[self.slot(q.start)] + directions(rev@.reverse()) =~= directions(
                rev@.reverse(),
            ));
        }
        let mut path: Vec<Action> = Vec::new();
        let mut i = rev.len();
        while i > 0
            invariant
                i <= rev@.len(),
                path@.len() == rev@.len() - i,
                forall|j: int| 0 <= j < path@.len() ==> path@[j] == rev@[rev@.len() - 1 - j],
            decreases i,
        {
            i -= 1;
            path.push(rev[i]);
        }
        assert(path@ =~= rev@.reverse());
        path
    }

    /// Finds the fewest moves that bring the robot in `state` to the cell in
    /// column `x` of row `y` of `grid`.
    ///
    /// The answer is `Some` shortest route, made of `Move` actions only, or
    /// `None` when no route leads there. A cell that is a `Block` cannot be
    /// entered unless the robot has a drill in effect. Of several shortest
    /// routes the answer is the first in the order of a dictionary, taken
    /// over the directions of the moves, so the same question always has the
    /// same answer. The engine can be used again afterwards; neither `grid`
    /// nor `state` is changed.
    pub fn search_fewest_actions_to_move(
        &mut self,
        grid: &Vec<Vec<Square>>,
        state: &PlayerState,
        x: usize,
        y: usize,
    ) -> (found: Option<Vec<Action>>)
        requires
            old(self).wf(),
            is_rectangle(board(grid), old(self).height(), old(self).width()),
            in_bounds(board(grid), state@.position),
            in_bounds(board(grid), (x as int, y as int)),
        ensures
            final(self).wf(),
            final(self).height() == old(self).height(),
            final(self).width() == old(self).width(),
            is_answer(
                board(grid),
                state@.drill_active(),
                state@.position,
                (x as int, y as int),
                plain(found),
            ),
            found matches Some(actions) ==> forall|k: int|
                0 <= k < actions@.len() ==> (#[trigger] actions@[k]) is Move && actions@[k].valid(),
            state@.position == (x as int, y as int) ==> (found matches Some(actions)
                && actions@.len() == 0),
            state@.drill_active() || obstacle_free(board(grid)) ==> (found matches Some(actions)
                && actions@.len() == manhattan(state@.position, (x as int, y as int))),
    {
        let ghost b = board(grid);
        let ghost s = state@.position;
        let ghost t = (x as int, y as int);
        let drill = state.has_active_drill();
        let start = (state.x(), state.y());
        proof {
            self.lemma_inside(b, s);
            self.lemma_inside(b, t);
        }
        self.reset();
        let (reached, Ghost(routes)) = self.explore(grid, drill, start, (x, y));
        let ghost q = Quest { board: b, drill, start: s };
        let found = if reached {
            Some(self.trace(Ghost(q), Ghost(routes), start, (x, y)))
        } else {
            None
        };
        proof {
            if found is Some {
                let actions = found->0;
                assert forall|k: int| 0 <= k < actions@.len() implies (#[trigger] actions@[k])
                    is Move && actions@[k].valid() by {
                    lemma_answer_moves_only(b, drill, s, t, actions@, k);
                }
            }
            if s == t {
                lemma_answer_at_start(b, drill, s, plain(found));
            }
            if drill || obstacle_free(b) {
                let (height, width) = (self.height(), self.width());
                lemma_answer_on_open_board(b, drill, height, width, s, t, plain(found));
            }
        }
        found
    }
}

} // verus!
