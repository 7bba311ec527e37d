use common::{Booster, PlayerState};

#[test]
fn new_robot_stands_where_it_was_put_and_faces_direction_zero() {
    let state = PlayerState::new(3, 8);
    assert_eq!(state.x(), 3);
    assert_eq!(state.y(), 8);
    assert_eq!(state.dir(), 0);
    assert!(!state.has_active_drill());
}

#[test]
fn move_to_and_face_change_position_and_direction() {
    let mut state = PlayerState::new(0, 0);
    state.move_to(4, 2);
    state.face(3);
    assert_eq!(state.x(), 4);
    assert_eq!(state.y(), 2);
    assert_eq!(state.dir(), 3);
}

#[test]
fn drill_counts_only_while_in_effect() {
    let mut state = PlayerState::new(0, 0);
    state.collect(Booster::Drill);
    assert!(!state.has_active_drill());
    state.activate(Booster::Fast, 50);
    assert!(!state.has_active_drill());
    state.activate(Booster::Drill, 0);
    assert!(!state.has_active_drill());
    state.activate(Booster::Drill, -1);
    assert!(!state.has_active_drill());
    state.activate(Booster::Drill, 1);
    assert!(state.has_active_drill());
}

#[test]
fn attaching_a_manipulator_leaves_the_rest_alone() {
    let mut state = PlayerState::new(1, 1);
    state.activate(Booster::Drill, 30);
    state.attach(1, 0);
    assert_eq!(state.x(), 1);
    assert_eq!(state.y(), 1);
    assert_eq!(state.dir(), 0);
    assert!(state.has_active_drill());
}

#[test]
fn new_robot_carries_nothing_and_has_one_manipulator_on_its_cell() {
    let state = PlayerState::new(2, 5);
    assert!(state.unused_boosters().is_empty());
    assert!(state.active_boosters().is_empty());
    assert_eq!(state.manipulators(), &vec![(0, 0)]);
}

#[test]
fn boosters_and_manipulators_are_kept_in_the_order_they_came() {
    let mut state = PlayerState::new(0, 0);
    state.collect(Booster::Fast);
    state.collect(Booster::X);
    state.collect(Booster::Fast);
    state.activate(Booster::Drill, 30);
    state.activate(Booster::Fast, 50);
    state.attach(1, 0);
    state.attach(1, -1);
    assert_eq!(state.unused_boosters(), &vec![Booster::Fast, Booster::X, Booster::Fast]);
    assert_eq!(state.active_boosters(), &vec![(Booster::Drill, 30), (Booster::Fast, 50)]);
    assert_eq!(state.manipulators(), &vec![(0, 0), (1, 0), (1, -1)]);
}
