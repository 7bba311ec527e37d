use common::apply_move;

#[test]
fn direction_zero_adds_one_to_the_column() {
    assert_eq!(apply_move((5, 7), 0), (6, 7));
}

#[test]
fn direction_one_takes_one_from_the_row() {
    assert_eq!(apply_move((5, 7), 1), (5, 6));
}

#[test]
fn direction_two_takes_one_from_the_column() {
    assert_eq!(apply_move((5, 7), 2), (4, 7));
}

#[test]
fn direction_three_adds_one_to_the_row() {
    assert_eq!(apply_move((5, 7), 3), (5, 8));
}

#[test]
fn moves_from_the_origin_that_stay_on_the_board() {
    assert_eq!(apply_move((0, 0), 0), (1, 0));
    assert_eq!(apply_move((0, 0), 3), (0, 1));
}

#[test]
fn opposite_moves_cancel() {
    let there = apply_move((3, 3), 0);
    assert_eq!(apply_move(there, 2), (3, 3));
    let up = apply_move((3, 3), 1);
    assert_eq!(apply_move(up, 3), (3, 3));
}
