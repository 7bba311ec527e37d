use common::{actions_to_string, Action};

#[test]
fn encodes_one_of_each_variant() {
    let list = vec![
        Action::Move(0),
        Action::TurnL,
        Action::TurnR,
        Action::Move(3),
        Action::Move(1),
        Action::Nothing,
        Action::Extension(1, 2),
        Action::Fast,
        Action::Drill,
    ];
    assert_eq!(actions_to_string(&list), "DQEWSZB(1,2)FL");
}

#[test]
fn encodes_empty_sequence_as_empty_text() {
    assert_eq!(actions_to_string(&Vec::new()), "");
}

#[test]
fn encodes_each_direction_with_its_letter() {
    assert_eq!(actions_to_string(&vec![Action::Move(0)]), "D");
    assert_eq!(actions_to_string(&vec![Action::Move(1)]), "S");
    assert_eq!(actions_to_string(&vec![Action::Move(2)]), "A");
    assert_eq!(actions_to_string(&vec![Action::Move(3)]), "W");
}

#[test]
fn encodes_each_plain_action_with_its_letter() {
    assert_eq!(actions_to_string(&vec![Action::Nothing]), "Z");
    assert_eq!(actions_to_string(&vec![Action::TurnR]), "E");
    assert_eq!(actions_to_string(&vec![Action::TurnL]), "Q");
    assert_eq!(actions_to_string(&vec![Action::Fast]), "F");
    assert_eq!(actions_to_string(&vec![Action::Drill]), "L");
}

#[test]
fn encodes_offsets_in_decimal() {
    assert_eq!(actions_to_string(&vec![Action::Extension(0, 0)]), "B(0,0)");
    assert_eq!(actions_to_string(&vec![Action::Extension(-1, 0)]), "B(-1,0)");
    assert_eq!(actions_to_string(&vec![Action::Extension(10, -205)]), "B(10,-205)");
    assert_eq!(actions_to_string(&vec![Action::Extension(9, 100)]), "B(9,100)");
    assert_eq!(
        actions_to_string(&vec![Action::Extension(i32::MIN, i32::MAX)]),
        "B(-2147483648,2147483647)"
    );
}

#[test]
fn encodes_offsets_like_the_standard_formatter() {
    let samples =
        [0, 1, -1, 9, 10, 11, 99, 100, 101, -10, -99, -100, 12345, -67890, i32::MAX, i32::MIN];
    for dx in samples {
        for dy in samples {
            let expected = format!("B({},{})", dx, dy);
            assert_eq!(actions_to_string(&vec![Action::Extension(dx, dy)]), expected);
        }
    }
}

#[test]
fn encoding_of_a_concatenation_is_the_concatenation_of_encodings() {
    let first = vec![Action::Move(2), Action::Extension(-3, 4), Action::TurnR];
    let second = vec![Action::Drill, Action::Move(0), Action::Extension(5, -6)];
    let mut both = first.clone();
    both.extend(second.iter().copied());
    let expected = format!("{}{}", actions_to_string(&first), actions_to_string(&second));
    assert_eq!(actions_to_string(&both), expected);
    assert_eq!(expected, "AB(-3,4)ELDB(5,-6)");
}

#[test]
fn encoding_keeps_the_order_of_actions() {
    let forward = vec![Action::Move(0), Action::Move(1), Action::Fast];
    let backward = vec![Action::Fast, Action::Move(1), Action::Move(0)];
    assert_eq!(actions_to_string(&forward), "DSF");
    assert_eq!(actions_to_string(&backward), "FSD");
}

#[test]
fn different_sequences_have_different_texts() {
    let all = [
        Action::Move(0),
        Action::Move(1),
        Action::Move(2),
        Action::Move(3),
        Action::Nothing,
        Action::TurnR,
        Action::TurnL,
        Action::Extension(1, 2),
        Action::Extension(12, 0),
        Action::Extension(1, 20),
        Action::Extension(-1, 2),
        Action::Fast,
        Action::Drill,
    ];
    let mut lists: Vec<Vec<Action>> = vec![Vec::new()];
    for a in all {
        lists.push(vec![a]);
        for c in all {
            lists.push(vec![a, c]);
        }
    }
    for (i, one) in lists.iter().enumerate() {
        for (j, other) in lists.iter().enumerate() {
            if i != j {
                assert_ne!(actions_to_string(one), actions_to_string(other));
            }
        }
    }
}
