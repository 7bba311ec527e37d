//! The robot: where it stands, how it faces and what it carries.

use crate::booster::Booster;
use crate::movement::is_direction;
use vstd::prelude::*;

verus! {

/// The state of the robot.
#[derive(Debug)]
pub struct PlayerState {
    x: usize,
    y: usize,
    dir: usize,
    unused_boosters: Vec<Booster>,
    active_boosters: Vec<(Booster, i32)>,
    manipulators: Vec<(i32, i32)>,
}

/// The robot as plain data.
pub struct PlayerView {
    /// Column and row of the cell the robot stands on.
    pub position: (int, int),
    /// The direction the robot faces.
    pub facing: int,
    /// The boosters picked up and not yet used.
    pub unused: Seq<Booster>,
    /// The boosters in effect, each with the number of turns it has left.
    pub active: Seq<(Booster, int)>,
    /// The offsets, relative to the robot, of its manipulators.
    pub manipulators: Seq<(int, int)>,
}

impl PlayerView {
    /// Whether a drill is in effect: among the active boosters is a `Drill`
    /// with at least one turn left.
    pub open spec fn drill_active(self) -> bool {
        exists|i: int|
            0 <= i < self.active.len() && (#[trigger] self.active[i]).0 == Booster::Drill
                && self.active[i].1 > 0
    }

    /// Whether the state is sound: the robot faces one of the four
    /// directions and has a manipulator on its own cell.
    pub open spec fn wf(self) -> bool {
        is_direction(self.facing) && self.manipulators.contains((0int, 0int))
    }
}

impl View for PlayerState {
    type V = PlayerView;

    closed spec fn view(&self) -> PlayerView {
        PlayerView {
            position: (self.x as int, self.y as int),
            facing: self.dir as int,
            unused: self.unused_boosters@,
            active: Seq::new(
                self.active_boosters@.len(),
                |i: int| (self.active_boosters@[i].0, self.active_boosters@[i].1 as int),
            ),
            manipulators: Seq::new(
                self.manipulators@.len(),
                |i: int| (self.manipulators@[i].0 as int, self.manipulators@[i].1 as int),
            ),
        }
    }
}

impl PlayerState {
    /// A robot on the cell in column `x` of row `y`, facing direction 0,
    /// with no booster and with the one manipulator on its own cell.
    pub fn new(x: usize, y: usize) -> (state: PlayerState)
        ensures
            state@ == (PlayerView {
                position: (x as int, y as int),
                facing: 0,
                unused: Seq::empty(),
                active: Seq::empty(),
                manipulators: seq![(0int, 0int)],
            }),
            state@.wf(),
    {
        let mut manipulators: Vec<(i32, i32)> = Vec::new();
        manipulators.push((0, 0));
        let state = PlayerState {
            x,
            y,
            dir: 0,
            unused_boosters: Vec::new(),
            active_boosters: Vec::new(),
            manipulators,
        };
        assert(state@.unused =~= Seq::empty());
        assert(state@.active =~= Seq::empty());
        assert(state@.manipulators =~= seq![(0int, 0int)]);
        assert(state@.manipulators[0] == (0int, 0int));
        state
    }

    /// The column the robot stands in.
    pub fn x(&self) -> (x: usize)
        ensures
            x == self@.position.0,
    {
        self.x
    }

    /// The row the robot stands in.
    pub fn y(&self) -> (y: usize)
        ensures
            y == self@.position.1,
    {
        self.y
    }

    /// The direction the robot faces.
    pub fn dir(&self) -> (dir: usize)
        ensures
            dir == self@.facing,
    {
        self.dir
    }

    /// The boosters picked up and not yet used.
    pub fn unused_boosters(&self) -> (unused: &Vec<Booster>)
        ensures
            unused@ == self@.unused,
    {
        &self.unused_boosters
    }

    /// The boosters in effect, each with the number of turns it has left.
    pub fn active_boosters(&self) -> (active: &Vec<(Booster, i32)>)
        ensures
            active@.len() == self@.active.len(),
            forall|i: int|
                0 <= i < active@.len() ==> self@.active[i] == (
                    (#[trigger] active@[i]).0,
                    active@[i].1 as int,
                ),
    {
        &self.active_boosters
    }

    /// The offsets, relative to the robot, of its manipulators.
    pub fn manipulators(&self) -> (offsets: &Vec<(i32, i32)>)
        ensures
            offsets@.len() == self@.manipulators.len(),
            forall|i: int|
                0 <= i < offsets@.len() ==> self@.manipulators[i] == (
                    (#[trigger] offsets@[i]).0 as int,
                    offsets@[i].1 as int,
                ),
    {
        &self.manipulators
    }

    /// Decides whether a drill is in effect.
    pub fn has_active_drill(&self) -> (drill: bool)
        ensures
            drill == self@.drill_active(),
    {
        let mut i: usize = 0;
        while i < self.active_boosters.len()
            invariant
                i <= self.active_boosters@.len(),
                forall|j: int|
                    0 <= j < i ==> !((#[trigger] self@.active[j]).0 == Booster::Drill
                        && self@.active[j].1 > 0),
            decreases self.active_boosters@.len() - i,
        {
            let entry = self.active_boosters[i];
            if entry.0 == Booster::Drill && entry.1 > 0 {
                assert(self@.active[i as int] == (entry.0, entry.1 as int));
                return true;
            }
            assert(self@.active[i as int] == (entry.0, entry.1 as int));
            i += 1;
        }
        false
    }

    /// Puts the robot on the cell in column `x` of row `y`.
    pub fn move_to(&mut self, x: usize, y: usize)
        ensures
            final(self)@ == (PlayerView { position: (x as int, y as int), ..old(self)@ }),
            old(self)@.wf() ==> final(self)@.wf(),
    {
        self.x = x;
        self.y = y;
    }

    /// Turns the robot to face direction `dir`.
    pub fn face(&mut self, dir: usize)
        requires
            is_direction(dir as int),
        ensures
            final(self)@ == (PlayerView { facing: dir as int, ..old(self)@ }),
            old(self)@.wf() ==> final(self)@.wf(),
    {
        self.dir = dir;
    }

    /// Adds `booster` to the boosters picked up and not yet used.
    pub fn collect(&mut self, booster: Booster)
        ensures
            final(self)@ == (PlayerView { unused: old(self)@.unused.push(booster), ..old(self)@ }),
            old(self)@.wf() ==> final(self)@.wf(),
    {
        self.unused_boosters.push(booster);
    }

    /// Puts `booster` into effect for `turns` turns.
    pub fn activate(&mut self, booster: Booster, turns: i32)
        ensures
            final(self)@ == (PlayerView {
                active: old(self)@.active.push((booster, turns as int)),
                ..old(self)@
            }),
            old(self)@.wf() ==> final(self)@.wf(),
    {
        self.active_boosters.push((booster, turns));
        assert(self@.active =~= old(self)@.active.push((booster, turns as int)));
    }

    /// Attaches a manipulator at the offset `(dx, dy)` from the robot.
    pub fn attach(&mut self, dx: i32, dy: i32)
        ensures
            final(self)@ == (PlayerView {
                manipulators: old(self)@.manipulators.push((dx as int, dy as int)),
                ..old(self)@
            }),
            old(self)@.wf() ==> final(self)@.wf(),
    {
        self.manipulators.push((dx, dy));
        assert(self@.manipulators =~= old(self)@.manipulators.push((dx as int, dy as int)));
        proof {
            if old(self)@.wf() {
                let i = choose|i: int|
                    0 <= i < old(self)@.manipulators.len() && old(self)@.manipulators[i] == (
                        0int,
                        0int,
                    );
                assert(self@.manipulators[i] == (0int, 0int));
            }
        }
    }
}

} // verus!
